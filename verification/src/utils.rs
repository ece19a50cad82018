use vstd::prelude::*;

use vstd::arithmetic::div_mod::lemma_fundamental_div_mod_converse;

verus! {

/// A span of time as whole seconds plus the nanoseconds of the last,
/// incomplete second.
pub struct Elapsed {
    pub secs: u64,
    pub subsec_nanos: u32,
}

/// The number of whole milliseconds in a span of `secs` seconds and
/// `subsec_nanos` nanoseconds.
pub open spec fn millis(secs: int, subsec_nanos: int) -> int {
    secs * 1000 + subsec_nanos / 1_000_000
}

/// Converts an elapsed span to milliseconds, dropping what is below one
/// millisecond of the incomplete second.
pub fn to_millis(duration: Elapsed) -> (ms: u64)
    requires
        millis(duration.secs as int, duration.subsec_nanos as int) <= u64::MAX,
    ensures
        ms == millis(duration.secs as int, duration.subsec_nanos as int),
{
    (duration.secs * 1_000) + (duration.subsec_nanos / 1_000_000) as u64
}

/// The records of a CSV text without a header line, each of two unsigned
/// 32-bit fields, as the `csv` crate decodes them; `None` when some record
/// does not decode.
pub uninterp spec fn csv_records(bytes: Seq<u8>) -> Option<Seq<(u32, u32)>>;

/// Decodes `bytes` with the `csv` crate (`Reader::from_bytes`, no header
/// line, `decode` into pairs of `u32`): the records in the order of the text,
/// or `None` at the first record that does not decode. What the decoding
/// yields is given the name `csv_records`.
#[verifier::external_body]
fn decode_records(bytes: &[u8]) -> (r: Option<Vec<(u32, u32)>>)
    ensures
        r is Some <==> csv_records(bytes@) is Some,
        r matches Some(v) ==> csv_records(bytes@) == Some(v@),
{
    let mut reader = csv::Reader::from_bytes(bytes.to_vec()).has_headers(false);
    reader.decode::<(u32, u32)>().collect::<csv::Result<Vec<(u32, u32)>>>().ok()
}

/// The number of batches that `n` records make with batches of
/// `batch_size`: every `batch_size + 1` records make one batch.
pub open spec fn batch_count(n: int, batch_size: int) -> int {
    n / (batch_size + 1) + (if n % (batch_size + 1) > 0 {
        1int
    } else {
        0
    })
}

/// Batch `i` of `records`: the first `batch_size` records of the `i`-th run
/// of `batch_size + 1` records (the last run may be shorter).
pub open spec fn batch_at(records: Seq<(u32, u32)>, batch_size: int, i: int) -> Seq<(u32, u32)> {
    let start = i * (batch_size + 1);
    let end = if start + batch_size <= records.len() {
        start + batch_size
    } else {
        records.len() as int
    };
    records.subrange(start, end)
}

/// Splits `records` into batches of `batch_size`, in order. A record that
/// arrives when the current batch is full closes that batch and is itself
/// left out; a last, incomplete batch is kept when it is not empty.
pub fn split_into_batches(records: &Vec<(u32, u32)>, batch_size: usize) -> (batches: Vec<
    Vec<(u32, u32)>,
>)
    ensures
        batches@.len() == batch_count(records@.len() as int, batch_size as int),
        forall|i: int|
            0 <= i < batches@.len() ==> #[trigger] batches@[i]@ == batch_at(
                records@,
                batch_size as int,
                i,
            ),
{
    let ghost m = batch_size + 1;
    let mut batches: Vec<Vec<(u32, u32)>> = Vec::new();
    let mut current: Vec<(u32, u32)> = Vec::new();
    let ghost mut start: int = 0;
    let n = records.len();
    let mut t: usize = 0;
    proof {
        let z = batches@.len() as int;
        assert(z * m == 0) by (nonlinear_arith)
            requires
                z == 0,
        ;
    }
    while t < n
        invariant
            n == records@.len(),
            m == batch_size + 1,
            0 <= start <= t <= n,
            start == batches@.len() * m,
            current@ == records@.subrange(start, t as int),
            current@.len() <= batch_size,
            forall|i: int|
                0 <= i < batches@.len() ==> #[trigger] batches@[i]@ == batch_at(
                    records@,
                    batch_size as int,
                    i,
                ),
        decreases n - t,
    {
        let record = records[t];
        if current.len() < batch_size {
            current.push(record);
            proof {
                assert(current@ =~= records@.subrange(start, t + 1));
            }
        } else {
            let ghost b = batches@.len();
            proof {
                assert(current@ == batch_at(records@, batch_size as int, b as int));
            }
            batches.push(current);
            current = Vec::new();
            proof {
                assert((b + 1) * m == b * m + m) by (nonlinear_arith);
                start = t + 1;
                assert(current@ =~= records@.subrange(start, t + 1));
            }
        }
        t += 1;
    }
    let ghost b = batches@.len() as int;
    let ghost r = n - start;
    if current.len() > 0 {
        proof {
            assert(current@ == batch_at(records@, batch_size as int, b));
        }
        batches.push(current);
    }
    proof {
        assert(n == b * m + r);
        assert(0 <= r < m);
        lemma_fundamental_div_mod_converse(n as int, m, b, r);
    }
    batches
}

/// Decodes CSV `contents` into records of two unsigned 32-bit fields and
/// splits them into batches as `split_into_batches` does; `None` when a
/// record does not decode.
pub fn read_batches(contents: &[u8], batch_size: usize) -> (r: Option<Vec<Vec<(u32, u32)>>>)
    ensures
        r is Some <==> csv_records(contents@) is Some,
        r matches Some(batches) ==> {
            let records = csv_records(contents@)->0;
            &&& batches@.len() == batch_count(records.len() as int, batch_size as int)
            &&& forall|i: int|
                0 <= i < batches@.len() ==> #[trigger] batches@[i]@ == batch_at(
                    records,
                    batch_size as int,
                    i,
                )
        },
{
    match decode_records(contents) {
        Some(records) => Some(split_into_batches(&records, batch_size)),
        None => None,
    }
}

} // verus!
