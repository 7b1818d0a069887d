use vstd::prelude::*;
use vstd::utf8::encode_utf8;

verus! {

/// The 64-bit XXH3 digest of `data`.
pub uninterp spec fn xxh3_of(data: Seq<u8>) -> u64;

/// A digest of `data`.
///
/// Relies on `twox_hash::xxh3::hash64`: the XXH3 64-bit digest with the
/// default seed, a function of the bytes alone.
#[verifier::external_body]
pub fn hash_fn(data: &[u8]) -> (r: u64)
    ensures
        r == xxh3_of(data@),
{
    twox_hash::xxh3::hash64(data)
}

/// The UTF-8 bytes of the records, one after the other.
pub open spec fn record_bytes(records: Seq<String>) -> Seq<u8>
    decreases records.len(),
{
    if records.len() == 0 {
        seq![]
    } else {
        record_bytes(records.drop_last()) + encode_utf8(records.last()@)
    }
}

pub open spec fn digit(d: nat) -> char {
    seq!['0', '1', '2', '3', '4', '5', '6', '7', '8', '9'][d as int]
}

/// The decimal digits of `n`, most significant first, with no leading zero.
pub open spec fn decimal(n: nat) -> Seq<char>
    decreases n,
{
    if n < 10 {
        seq![digit(n)]
    } else {
        decimal(n / 10) + seq![digit(n % 10)]
    }
}

fn digit_str(d: u64) -> (r: &'static str)
    requires
        d < 10,
    ensures
        r@ == seq![digit(d as nat)],
{
    proof {
        reveal_strlit("0");
        reveal_strlit("1");
        reveal_strlit("2");
        reveal_strlit("3");
        reveal_strlit("4");
        reveal_strlit("5");
        reveal_strlit("6");
        reveal_strlit("7");
        reveal_strlit("8");
        reveal_strlit("9");
    }
    let r = if d == 0 {
        "0"
    } else if d == 1 {
        "1"
    } else if d == 2 {
        "2"
    } else if d == 3 {
        "3"
    } else if d == 4 {
        "4"
    } else if d == 5 {
        "5"
    } else if d == 6 {
        "6"
    } else if d == 7 {
        "7"
    } else if d == 8 {
        "8"
    } else {
        "9"
    };
    assert(r@ =~= seq![digit(d as nat)]);
    r
}

/// `n` written in decimal.
pub fn to_decimal(n: u64) -> (r: String)
    ensures
        r@ == decimal(n as nat),
    decreases n,
{
    if n < 10 {
        String::from_str(digit_str(n))
    } else {
        let mut s = to_decimal(n / 10);
        s.append(digit_str(n % 10));
        s
    }
}

/// One compilation record of a compilation database.
pub struct CompileCommand {
    pub directory: String,
    pub file: String,
    pub command: Option<String>,
    pub arguments: Option<Vec<String>>,
    pub output: Option<String>,
}

/// A compilation database: the way each file is compiled.
pub struct CompileCommands {
    pub commands: Vec<CompileCommand>,
}

/// `a` comes no later than `b` in the order of their characters.
pub open spec fn str_le(a: Seq<char>, b: Seq<char>) -> bool
    decreases a.len(),
{
    if a.len() == 0 {
        true
    } else if b.len() == 0 {
        false
    } else if a[0] != b[0] {
        (a[0] as u32) < (b[0] as u32)
    } else {
        str_le(a.drop_first(), b.drop_first())
    }
}

/// Relies on `slice::sort_by` with `String`'s order on the `file` field: the
/// same records, in ascending order of `file` (by character).
#[verifier::external_body]
fn sort_commands(v: &mut Vec<CompileCommand>)
    ensures
        final(v)@.to_multiset() == old(v)@.to_multiset(),
        forall|i: int, j: int|
            #![trigger final(v)@[i], final(v)@[j]]
            0 <= i < j < final(v)@.len() ==> str_le(final(v)@[i].file@, final(v)@[j].file@),
{
    v.sort_by(|a, b| a.file.cmp(&b.file))
}

impl CompileCommands {
    /// Puts the records in ascending order of their file, so that the
    /// fingerprint does not depend on the order of the database.
    pub fn sort_by_file(&mut self)
        ensures
            final(self).commands@.to_multiset() == old(self).commands@.to_multiset(),
            forall|i: int, j: int|
                #![trigger final(self).commands@[i], final(self).commands@[j]]
                0 <= i < j < final(self).commands@.len() ==> str_le(
                    final(self).commands@[i].file@,
                    final(self).commands@[j].file@,
                ),
    {
        sort_commands(&mut self.commands);
    }

    /// The fingerprint of a database whose sorted records, serialized one by
    /// one, are `records`: the decimal digest of their bytes in order.
    pub fn hash(records: &Vec<String>) -> (r: String)
        ensures
            r@ == decimal(xxh3_of(record_bytes(records@)) as nat),
    {
        let mut bytes: Vec<u8> = Vec::new();
        let mut i: usize = 0;
        while i < records.len()
            invariant
                i <= records@.len(),
                bytes@ == record_bytes(records@.take(i as int)),
            decreases records@.len() - i,
        {
            let b = records[i].as_str().as_bytes();
            let ghost before = bytes@;
            let mut k: usize = 0;
            while k < b.len()
                invariant
                    k <= b@.len(),
                    bytes@ == before + b@.take(k as int),
                decreases b@.len() - k,
            {
                bytes.push(b[k]);
                proof {
                    assert(b@.take(k + 1) =~= b@.take(k as int).push(b@[k as int]));
                    assert(before + b@.take(k + 1) =~= (before + b@.take(k as int)).push(b@[k as int]));
                }
                k = k + 1;
            }
            proof {
                assert(b@.take(b@.len() as int) =~= b@);
                assert(records@.take(i + 1).drop_last() =~= records@.take(i as int));
                assert(records@.take(i + 1).last() == records@[i as int]);
            }
            i = i + 1;
        }
        proof {
            assert(records@.take(records@.len() as int) =~= records@);
        }
        let h = hash_fn(bytes.as_slice());
        to_decimal(h)
    }
}

/// The content digests of a set of files, taken when a checkpoint was made.
pub struct Checkpoint {
    pub file_hashes: Vec<(String, u64)>,
}

impl Checkpoint {
    /// Whether some file's current digest differs from the recorded one;
    /// `current[i]` is the current digest of the `i`-th recorded file.
    pub fn is_affected(&self, current: &Vec<u64>) -> (r: bool)
        requires
            current@.len() == self.file_hashes@.len(),
        ensures
            r == exists|i: int| 0 <= i < current@.len() && #[trigger] current@[i] != self.file_hashes@[i].1,
    {
        let mut i: usize = 0;
        while i < current.len()
            invariant
                i <= current@.len(),
                current@.len() == self.file_hashes@.len(),
                forall|k: int| 0 <= k < i ==> #[trigger] current@[k] == self.file_hashes@[k].1,
            decreases current@.len() - i,
        {
            if current[i] != self.file_hashes[i].1 {
                return true;
            }
            i = i + 1;
        }
        false
    }
}

} // verus!
