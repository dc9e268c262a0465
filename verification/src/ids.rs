//! Token ids as a compact binary file: a header line, then every id as a
//! little-endian `u16`.
use vstd::prelude::*;
use crate::render::{decimal, push_decimal, push_str};

verus! {

/// The bytes of the header line `"pllm ids v1\n"`.
pub open spec fn ids_header() -> Seq<u8> {
    seq![0x70u8, 0x6Cu8, 0x6Cu8, 0x6Du8, 0x20u8, 0x69u8, 0x64u8, 0x73u8, 0x20u8, 0x76u8, 0x31u8, 0x0Au8]
}

/// An id as two little-endian bytes.
pub open spec fn le_u16(id: u32) -> Seq<u8> {
    seq![(id % 256) as u8, (id / 256) as u8]
}

/// The file for `ids`, all of which fit in `u16`.
pub open spec fn ids_file(ids: Seq<u32>) -> Seq<u8> {
    ids_header() + ids.map_values(|id: u32| le_u16(id)).flatten()
}

/// The message for an id that does not fit.
pub open spec fn too_large_message(id: u32) -> Seq<char> {
    "id "@ + decimal(id as nat) + " does not fit in u16"@
}

/// The first index holding an id above `u16::MAX`, if any.
pub open spec fn first_too_large(ids: Seq<u32>, k: int) -> bool {
    0 <= k < ids.len() && ids[k] > 0xFFFF && forall|j: int| 0 <= j < k ==> #[trigger] ids[j] <= 0xFFFF
}

/// The ids a file holds, or why it holds none.
pub open spec fn read_ids(bytes: Seq<u8>) -> Result<Seq<u32>, Seq<char>> {
    if bytes.len() < 12 || bytes.take(12) != ids_header() {
        Err("unbekannter Header"@)
    } else if (bytes.len() - 12) % 2 != 0 {
        Err(decimal((bytes.len() - 12) as nat) + " ist keine gerade Anzahl Bytes"@)
    } else {
        Ok(
            Seq::new(
                ((bytes.len() - 12) / 2) as nat,
                |i: int| (bytes[12 + 2 * i] as u32 + 256 * (bytes[12 + 2 * i + 1] as u32)) as u32,
            ),
        )
    }
}

/// Serialises token ids for reuse elsewhere, without re-running `encode()`.
///
/// An ASCII header line `"pllm ids v1\n"`, then every id as a little-endian
/// `u16`, which halves the file against `u32`. An id that does not fit is an
/// error rather than being truncated.
pub fn ids_to_bytes(ids: &[u32]) -> (r: Result<Vec<u8>, String>)
    ensures
        match r {
            Ok(v) => (forall|k: int| 0 <= k < ids@.len() ==> #[trigger] ids@[k] <= 0xFFFF) && v@
                == ids_file(ids@),
            Err(e) => exists|k: int| #[trigger] first_too_large(ids@, k) && e@ == too_large_message(ids@[k]),
        },
{
    let mut out: Vec<u8> = Vec::new();
    out.push(0x70);
    out.push(0x6C);
    out.push(0x6C);
    out.push(0x6D);
    out.push(0x20);
    out.push(0x69);
    out.push(0x64);
    out.push(0x73);
    out.push(0x20);
    out.push(0x76);
    out.push(0x31);
    out.push(0x0A);
    let ghost f = |id: u32| le_u16(id);
    proof {
        assert(out@ =~= ids_header());
        assert(ids@.take(0).map_values(f) =~= Seq::<Seq<u8>>::empty());
        assert(out@ =~= ids_header() + ids@.take(0).map_values(f).flatten());
    }
    let mut k: usize = 0;
    while k < ids.len()
        invariant
            k <= ids.len(),
            f == (|id: u32| le_u16(id)),
            forall|j: int| 0 <= j < k ==> #[trigger] ids@[j] <= 0xFFFF,
            out@ == ids_header() + ids@.take(k as int).map_values(f).flatten(),
        decreases ids.len() - k,
    {
        let id = ids[k];
        if id > 0xFFFF {
            let mut msg = String::new();
            push_str(&mut msg, "id ");
            push_decimal(&mut msg, id as u64);
            push_str(&mut msg, " does not fit in u16");
            proof {
                assert(first_too_large(ids@, k as int));
                assert(msg@ =~= too_large_message(ids@[k as int]));
            }
            return Err(msg);
        }
        out.push((id % 256) as u8);
        out.push((id / 256) as u8);
        proof {
            let prev = ids@.take(k as int).map_values(f);
            assert(ids@.take(k + 1).map_values(f) =~= prev.push(le_u16(id)));
            prev.lemma_flatten_push(le_u16(id));
            assert(out@ =~= ids_header() + ids@.take(k + 1).map_values(f).flatten());
        }
        k = k + 1;
    }
    proof {
        assert(ids@.take(k as int) =~= ids@);
    }
    Ok(out)
}

/// Reads back what `ids_to_bytes` wrote.
pub fn ids_from_bytes(bytes: &[u8]) -> (r: Result<Vec<u32>, String>)
    ensures
        match r {
            Ok(v) => read_ids(bytes@) == Ok::<Seq<u32>, Seq<char>>(v@),
            Err(e) => read_ids(bytes@) == Err::<Seq<u32>, Seq<char>>(e@),
        },
{
    let header: [u8; 12] = [0x70, 0x6C, 0x6C, 0x6D, 0x20, 0x69, 0x64, 0x73, 0x20, 0x76, 0x31, 0x0A];
    if bytes.len() < 12 {
        return Err(String::from_str("unbekannter Header"));
    }
    let mut k: usize = 0;
    while k < 12
        invariant
            k <= 12,
            bytes@.len() >= 12,
            forall|j: int| 0 <= j < k ==> bytes@[j] == #[trigger] ids_header()[j],
            header@ == ids_header(),
        decreases 12 - k,
    {
        if bytes[k] != header[k] {
            proof {
                assert(bytes@.take(12)[k as int] != ids_header()[k as int]);
            }
            return Err(String::from_str("unbekannter Header"));
        }
        k = k + 1;
    }
    proof {
        assert(bytes@.take(12) =~= ids_header());
    }
    let body = bytes.len() - 12;
    if body % 2 != 0 {
        let mut msg = String::new();
        push_decimal(&mut msg, body as u64);
        push_str(&mut msg, " ist keine gerade Anzahl Bytes");
        return Err(msg);
    }
    let count = body / 2;
    let mut out: Vec<u32> = Vec::new();
    let mut i: usize = 0;
    while i < count
        invariant
            i <= count,
            count * 2 == body,
            body + 12 == bytes.len(),
            out@.len() == i,
            forall|j: int| 0 <= j < i ==> #[trigger] out@[j] == (bytes@[12 + 2 * j] as u32 + 256 * (
            bytes@[12 + 2 * j + 1] as u32)) as u32,
        decreases count - i,
    {
        let lo = bytes[12 + 2 * i] as u32;
        let hi = bytes[12 + 2 * i + 1] as u32;
        out.push(lo + 256 * hi);
        i = i + 1;
    }
    proof {
        if let Ok(v) = read_ids(bytes@) {
            assert(out@ =~= v);
        }
    }
    Ok(out)
}

/// Writing ids and reading them back gives the same ids, whenever they all
/// fit in `u16`.
pub proof fn lemma_ids_roundtrip(ids: Seq<u32>)
    requires
        forall|k: int| 0 <= k < ids.len() ==> #[trigger] ids[k] <= 0xFFFF,
    ensures
        read_ids(ids_file(ids)) == Ok::<Seq<u32>, Seq<char>>(ids),
{
    let f = |id: u32| le_u16(id);
    let body = ids.map_values(f).flatten();
    lemma_le_body(ids);
    let file = ids_file(ids);
    assert(file.take(12) =~= ids_header());
    assert(file.len() == 12 + 2 * ids.len());
    let v = Seq::new(
        ((file.len() - 12) / 2) as nat,
        |i: int| (file[12 + 2 * i] as u32 + 256 * (file[12 + 2 * i + 1] as u32)) as u32,
    );
    assert forall|i: int| 0 <= i < ids.len() implies #[trigger] v[i] == ids[i] by {
        assert(file[12 + 2 * i] == body[2 * i]);
        assert(file[12 + 2 * i + 1] == body[2 * i + 1]);
    }
    assert(v =~= ids);
}

/// Every file that reads without error holds ids that fit in `u16`, and
/// writing those ids gives the file back byte for byte.
pub proof fn lemma_ids_file_roundtrip(bytes: Seq<u8>)
    ensures
        read_ids(bytes) matches Ok(v) ==> (forall|k: int| 0 <= k < v.len() ==> #[trigger] v[k]
            <= 0xFFFF) && ids_file(v) == bytes,
{
    if let Ok(v) = read_ids(bytes) {
        assert forall|k: int| 0 <= k < v.len() implies #[trigger] v[k] <= 0xFFFF by {
            assert(v[k] == (bytes[12 + 2 * k] as u32 + 256 * (bytes[12 + 2 * k + 1] as u32)) as u32);
        }
        lemma_le_body(v);
        let body = v.map_values(|id: u32| le_u16(id)).flatten();
        let file = ids_file(v);
        assert(file.len() == bytes.len());
        assert forall|k: int| 0 <= k < bytes.len() implies #[trigger] file[k] == bytes[k] by {
            if k < 12 {
                assert(bytes.take(12)[k] == ids_header()[k]);
            } else {
                let i = (k - 12) / 2;
                assert(0 <= i < v.len());
                let lo = bytes[12 + 2 * i];
                let hi = bytes[12 + 2 * i + 1];
                assert(v[i] == (lo as u32 + 256 * (hi as u32)) as u32);
                assert(body[2 * i] as u32 + 256 * (body[2 * i + 1] as u32) == v[i]);
                assert(body[2 * i] == lo && body[2 * i + 1] == hi);
                if k == 12 + 2 * i {
                    assert(file[k] == body[2 * i]);
                } else {
                    assert(k == 12 + 2 * i + 1);
                    assert(file[k] == body[2 * i + 1]);
                }
            }
        }
        assert(file =~= bytes);
    }
}

proof fn lemma_le_body(ids: Seq<u32>)
    requires
        forall|k: int| 0 <= k < ids.len() ==> #[trigger] ids[k] <= 0xFFFF,
    ensures
        ({
            let body = ids.map_values(|id: u32| le_u16(id)).flatten();
            &&& body.len() == 2 * ids.len()
            &&& forall|i: int|
                0 <= i < ids.len() ==> (#[trigger] body[2 * i]) as u32 + 256 * (body[2 * i + 1] as u32)
                    == ids[i]
        }),
    decreases ids.len(),
{
    let f = |id: u32| le_u16(id);
    if ids.len() > 0 {
        let prev = ids.drop_last();
        assert forall|k: int| 0 <= k < prev.len() implies #[trigger] prev[k] <= 0xFFFF by {
            assert(prev[k] == ids[k]);
        }
        lemma_le_body(prev);
        assert(ids.map_values(f) =~= prev.map_values(f).push(le_u16(ids.last())));
        prev.map_values(f).lemma_flatten_push(le_u16(ids.last()));
        let body = ids.map_values(f).flatten();
        let pb = prev.map_values(f).flatten();
        assert forall|i: int| 0 <= i < ids.len() implies (#[trigger] body[2 * i]) as u32 + 256 * (
        body[2 * i + 1] as u32) == ids[i] by {
            if i < prev.len() {
                assert(body[2 * i] == pb[2 * i]);
                assert(body[2 * i + 1] == pb[2 * i + 1]);
                assert(ids[i] == prev[i]);
            } else {
                let x = ids.last();
                assert(x <= 0xFFFF);
                assert(body[2 * i] == (x % 256) as u8);
                assert(body[2 * i + 1] == (x / 256) as u8);
            }
        }
    } else {
        assert(ids.map_values(f) =~= Seq::<Seq<u8>>::empty());
    }
}

} // verus!
