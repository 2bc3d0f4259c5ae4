//! The stream engine: unpacking copies each part's byte range out of the
//! image, stopping early at the end of the image; packing assembles the image
//! from per-part inputs over a `0xFF` fill, capping each input at the part's
//! size and padding short inputs with the part's padding byte. Each part's
//! bytes are digested.

use vstd::prelude::*;

use crate::hash::{sha256_hex, sha256_hex_of};
use crate::parts::{part_views, FirmwarePart, PartV};

verus! {

/// The bytes unpacking yields for a range: `image[offset .. offset+size]`,
/// cut short at the end of the image.
pub open spec fn extracted(image: Seq<u8>, offset: u64, size: u64) -> Seq<u8> {
    if offset > image.len() {
        Seq::<u8>::empty()
    } else if offset + size <= image.len() {
        image.subrange(offset as int, offset + size)
    } else {
        image.subrange(offset as int, image.len() as int)
    }
}

/// The `size` bytes packing writes for a part: the input capped at `size`,
/// extended with the padding byte when the input is shorter.
pub open spec fn region_bytes(size: u64, padding: u8, file: Seq<u8>) -> Seq<u8> {
    if file.len() >= size {
        file.take(size as int)
    } else {
        file + Seq::new((size - file.len()) as nat, |i: int| padding)
    }
}

/// `base` with `region` written over it starting at `offset`. Bytes past the
/// end of `base` are lost; the packing engine never writes any.
pub open spec fn overwrite(base: Seq<u8>, offset: int, region: Seq<u8>) -> Seq<u8> {
    Seq::new(base.len(), |j: int| if offset <= j && j < offset + region.len() { region[j - offset] } else { base[j] })
}

/// The views of the per-part input files, in order.
pub open spec fn file_views(files: Seq<Option<Vec<u8>>>) -> Seq<Option<Seq<u8>>> {
    files.map(|i: int, o: Option<Vec<u8>>| match o {
        Some(v) => Some(v@),
        None => None,
    })
}

/// The size of the packed image: the largest `offset + size` over all parts,
/// or 0 with no parts.
pub open spec fn parts_end(parts: Seq<PartV>) -> int
    decreases parts.len(),
{
    if parts.len() == 0 {
        0
    } else {
        let e = parts.last().offset + parts.last().size;
        let rest = parts_end(parts.drop_last());
        if e > rest {
            e
        } else {
            rest
        }
    }
}

/// The image after the first `n` parts are packed over `base`: each part with
/// an input file writes its region at its offset, in declaration order; a
/// part without one writes nothing.
pub open spec fn packed_prefix(
    parts: Seq<PartV>,
    files: Seq<Option<Seq<u8>>>,
    n: int,
    base: Seq<u8>,
) -> Seq<u8>
    decreases n,
{
    if n <= 0 {
        base
    } else {
        let prev = packed_prefix(parts, files, n - 1, base);
        match files[n - 1] {
            None => prev,
            Some(f) => overwrite(
                prev,
                parts[n - 1].offset as int,
                region_bytes(parts[n - 1].size, parts[n - 1].padding_byte, f),
            ),
        }
    }
}

/// `n` fill bytes (`0xFF`), the initial content of a packed image.
pub open spec fn fill_bytes(n: int) -> Seq<u8> {
    Seq::new(n as nat, |i: int| 0xFFu8)
}

/// The packed image: every part written in declaration order over a fill of
/// `0xFF`.
pub open spec fn packed_image(parts: Seq<PartV>, files: Seq<Option<Seq<u8>>>) -> Seq<u8> {
    packed_prefix(parts, files, parts.len() as int, fill_bytes(parts_end(parts)))
}

/// What packing reports for a part that had an input file: how many bytes
/// came from it, how many padding bytes followed, and the digest over the
/// part's full region.
pub struct PartReport {
    pub written: u64,
    pub padded: u64,
    pub digest: String,
}

/// Packing never shrinks the image: writing a region keeps the length.
pub proof fn lemma_packed_prefix_len(
    parts: Seq<PartV>,
    files: Seq<Option<Seq<u8>>>,
    n: int,
    base: Seq<u8>,
)
    ensures
        packed_prefix(parts, files, n, base).len() == base.len(),
    decreases n,
{
    if n > 0 {
        lemma_packed_prefix_len(parts, files, n - 1, base);
    }
}

/// The packed image is long enough for every part's region.
pub proof fn lemma_parts_end_ge(parts: Seq<PartV>, i: int)
    requires
        0 <= i < parts.len(),
    ensures
        parts_end(parts) >= parts[i].offset + parts[i].size,
    decreases parts.len(),
{
    if i < parts.len() - 1 {
        lemma_parts_end_ge(parts.drop_last(), i);
    }
}

/// Whether part `j` writes at image index `k` when packing: it has an input
/// file and `k` lies in its region.
pub open spec fn writes_at(parts: Seq<PartV>, files: Seq<Option<Seq<u8>>>, j: int, k: int) -> bool {
    files[j] is Some && parts[j].offset <= k < parts[j].offset + parts[j].size
}

/// An image index that none of the first `n` parts writes keeps the base
/// value.
proof fn lemma_packed_prefix_outside(
    parts: Seq<PartV>,
    files: Seq<Option<Seq<u8>>>,
    n: int,
    base: Seq<u8>,
    k: int,
)
    requires
        0 <= k < base.len(),
        forall|j: int| 0 <= j < n ==> !writes_at(parts, files, j, k),
    ensures
        packed_prefix(parts, files, n, base)[k] == base[k],
    decreases n,
{
    if n > 0 {
        lemma_packed_prefix_outside(parts, files, n - 1, base, k);
        lemma_packed_prefix_len(parts, files, n - 1, base);
        assert(!writes_at(parts, files, n - 1, k));
    }
}

/// The last of the first `n` parts to write an image index determines its
/// value: the matching byte of that part's region.
proof fn lemma_packed_prefix_inside(
    parts: Seq<PartV>,
    files: Seq<Option<Seq<u8>>>,
    n: int,
    base: Seq<u8>,
    j: int,
    k: int,
)
    requires
        0 <= k < base.len(),
        0 <= j < n,
        writes_at(parts, files, j, k),
        forall|j2: int| j < j2 < n ==> !writes_at(parts, files, j2, k),
    ensures
        packed_prefix(parts, files, n, base)[k] == region_bytes(
            parts[j].size,
            parts[j].padding_byte,
            files[j]->0,
        )[k - parts[j].offset],
    decreases n,
{
    lemma_packed_prefix_len(parts, files, n - 1, base);
    if n - 1 == j {
    } else {
        assert(!writes_at(parts, files, n - 1, k));
        lemma_packed_prefix_inside(parts, files, n - 1, base, j, k);
    }
}

/// Whether no two parts' regions share an image index.
pub open spec fn non_overlapping(parts: Seq<PartV>) -> bool {
    forall|i: int, j: int|
        0 <= i < parts.len() && 0 <= j < parts.len() && i != j ==> parts[i].offset
            + parts[i].size <= parts[j].offset || parts[j].offset + parts[j].size
            <= parts[i].offset
}

/// Law: packing with a missing input file for one part leaves that part's
/// whole destination region at the fill byte `0xFF`, provided no part that
/// does have an input overlaps that region.
pub proof fn lemma_missing_file_region_is_fill(
    parts: Seq<PartV>,
    files: Seq<Option<Seq<u8>>>,
    i: int,
    k: int,
)
    requires
        files.len() == parts.len(),
        0 <= i < parts.len(),
        files[i] is None,
        parts[i].offset <= k < parts[i].offset + parts[i].size,
        forall|j: int|
            0 <= j < parts.len() && j != i && files[j] is Some ==> (#[trigger] parts[j]).offset
                + parts[j].size <= parts[i].offset || parts[i].offset + parts[i].size
                <= parts[j].offset,
    ensures
        packed_image(parts, files)[k] == 0xFF,
{
    lemma_parts_end_ge(parts, i);
    let base = fill_bytes(parts_end(parts));
    assert forall|j: int| 0 <= j < parts.len() implies !writes_at(parts, files, j, k) by {
        if j != i && files[j] is Some {
            assert(parts[j].offset + parts[j].size <= parts[i].offset || parts[i].offset
                + parts[i].size <= parts[j].offset);
        }
    }
    lemma_packed_prefix_outside(parts, files, parts.len() as int, base, k);
}

/// Law (round trip): over parts whose sizes are all given and match their
/// input files exactly (no padding) and whose regions do not overlap,
/// unpacking each part of the packed image yields that part's input bytes
/// back, and packing those extracted bytes again yields the identical image.
pub proof fn lemma_pack_unpack_round_trip(parts: Seq<PartV>, files: Seq<Option<Seq<u8>>>)
    requires
        files.len() == parts.len(),
        forall|i: int|
            0 <= i < parts.len() ==> (#[trigger] files[i]) is Some && files[i]->0.len()
                == parts[i].size,
        non_overlapping(parts),
    ensures
        forall|i: int|
            0 <= i < parts.len() ==> extracted(
                packed_image(parts, files),
                (#[trigger] parts[i]).offset,
                parts[i].size,
            ) == files[i]->0,
        packed_image(
            parts,
            Seq::new(
                parts.len(),
                |i: int| Some(extracted(packed_image(parts, files), parts[i].offset, parts[i].size)),
            ),
        ) == packed_image(parts, files),
{
    let image = packed_image(parts, files);
    let base = fill_bytes(parts_end(parts));
    lemma_packed_prefix_len(parts, files, parts.len() as int, base);
    assert forall|i: int|
        0 <= i < parts.len() implies extracted(
        image,
        (#[trigger] parts[i]).offset,
        parts[i].size,
    ) == files[i]->0 by {
        lemma_parts_end_ge(parts, i);
        let f = files[i]->0;
        let off = parts[i].offset as int;
        let size = parts[i].size as int;
        let ex = extracted(image, parts[i].offset, parts[i].size);
        assert(ex == image.subrange(off, off + size));
        assert forall|k: int| 0 <= k < size implies #[trigger] ex[k] == f[k] by {
            assert(writes_at(parts, files, i, off + k));
            assert forall|j2: int| i < j2 < parts.len() implies !(#[trigger] writes_at(
                parts,
                files,
                j2,
                off + k,
            )) by {
                assert(parts[i].offset + parts[i].size <= parts[j2].offset || parts[j2].offset
                    + parts[j2].size <= parts[i].offset);
            }
            lemma_packed_prefix_inside(parts, files, parts.len() as int, base, i, off + k);
            assert(region_bytes(parts[i].size, parts[i].padding_byte, f) == f.take(size));
            assert(f.take(size) =~= f);
        }
        assert(ex =~= f);
    }
    let files2 = Seq::new(
        parts.len(),
        |i: int| Some(extracted(packed_image(parts, files), parts[i].offset, parts[i].size)),
    );
    assert(files2 =~= files);
}

/// Extracts one part from the image: the bytes at `[offset, offset + size)`,
/// stopping early without error at the end of the image, and the digest over
/// exactly the bytes copied.
pub fn unpack_part(image: &Vec<u8>, part: &FirmwarePart) -> (r: (Vec<u8>, String))
    ensures
        r.0@ == extracted(image@, part.offset, part.size),
        r.1@ == sha256_hex_of(r.0@),
{
    let len = image.len();
    let start: usize = if part.offset > len as u64 {
        len
    } else {
        part.offset as usize
    };
    let end: usize = if part.size > (len - start) as u64 {
        len
    } else {
        start + (part.size as usize)
    };
    let mut out: Vec<u8> = Vec::new();
    let mut j = start;
    while j < end
        invariant
            start <= j <= end <= image@.len(),
            out@ == image@.subrange(start as int, j as int),
        decreases end - j,
    {
        out.push(image[j]);
        proof {
            assert(image@.subrange(start as int, j as int).push(image@[j as int]) =~= image@
                .subrange(start as int, j + 1));
        }
        j += 1;
    }
    proof {
        assert(out@ =~= extracted(image@, part.offset, part.size));
    }
    let digest = sha256_hex(out.as_slice());
    (out, digest)
}

/// Assembles the image: `parts_end` fill bytes (`0xFF`), then each part with
/// an input file gets its region — the input capped at the part's size, then
/// the part's padding byte — written at its offset, in declaration order.
/// Per part with an input, the report gives the bytes taken from the input,
/// the padding bytes added, and the digest over the full region; a part
/// without an input gets no report and leaves its region untouched.
#[verifier::loop_isolation(false)]
pub fn pack_image(parts: &Vec<FirmwarePart>, files: &Vec<Option<Vec<u8>>>) -> (r: (
    Vec<u8>,
    Vec<Option<PartReport>>,
))
    requires
        files@.len() == parts@.len(),
        forall|i: int|
            0 <= i < parts@.len() ==> (#[trigger] parts@[i]).offset + parts@[i].size
                <= usize::MAX,
    ensures
        r.0@ == packed_image(part_views(parts@), file_views(files@)),
        r.1@.len() == parts@.len(),
        forall|i: int|
            0 <= i < parts@.len() ==> match (files@[i], #[trigger] r.1@[i]) {
                (Some(f), Some(rep)) => {
                    &&& rep.written == if f@.len() >= parts@[i].size {
                        parts@[i].size
                    } else {
                        f@.len() as u64
                    }
                    &&& rep.padded == parts@[i].size - rep.written
                    &&& rep.digest@ == sha256_hex_of(
                        region_bytes(parts@[i].size, parts@[i].padding_byte, f@),
                    )
                },
                (None, None) => true,
                _ => false,
            },
{
    let ghost pv = part_views(parts@);
    let ghost fv = file_views(files@);
    let n = parts.len();

    // The image size: the largest offset + size over all parts.
    let mut end_u: usize = 0;
    let mut i: usize = 0;
    while i < n
        invariant
            i <= n,
            end_u as int == parts_end(pv.take(i as int)),
        decreases n - i,
    {
        proof {
            assert(pv.take(i + 1).drop_last() =~= pv.take(i as int));
            assert(pv.take(i + 1).last() == pv[i as int]);
        }
        let e = parts[i].offset + parts[i].size;
        if e > end_u as u64 {
            end_u = e as usize;
        }
        i += 1;
    }
    proof {
        assert(pv.take(n as int) =~= pv);
    }

    // Fill the whole extent with the fill byte.
    let ghost base = fill_bytes(parts_end(pv));
    let mut image: Vec<u8> = Vec::new();
    while image.len() < end_u
        invariant
            image@.len() <= end_u,
            image@ == fill_bytes(image@.len() as int),
        decreases end_u - image@.len(),
    {
        image.push(0xFF);
        proof {
            assert(image@ =~= fill_bytes(image@.len() as int));
        }
    }
    proof {
        assert(image@ == base);
    }

    // Write each part's region, in declaration order.
    let mut reports: Vec<Option<PartReport>> = Vec::new();
    let mut i: usize = 0;
    while i < n
        invariant
            i <= n,
            reports@.len() == i,
            image@ == packed_prefix(pv, fv, i as int, base),
            forall|j: int|
                0 <= j < i ==> match (files@[j], #[trigger] reports@[j]) {
                    (Some(f), Some(rep)) => {
                        &&& rep.written == if f@.len() >= parts@[j].size {
                            parts@[j].size
                        } else {
                            f@.len() as u64
                        }
                        &&& rep.padded == parts@[j].size - rep.written
                        &&& rep.digest@ == sha256_hex_of(
                            region_bytes(parts@[j].size, parts@[j].padding_byte, f@),
                        )
                    },
                    (None, None) => true,
                    _ => false,
                },
        decreases n - i,
    {
        proof {
            lemma_packed_prefix_len(pv, fv, i as int, base);
            lemma_parts_end_ge(pv, i as int);
        }
        match &files[i] {
            None => {
                reports.push(None);
                proof {
                    assert(fv[i as int] is None);
                }
            },
            Some(f) => {
                proof {
                    assert(fv[i as int] == Some(f@));
                }
                let size_us = parts[i].size as usize;
                let ghost region = region_bytes(parts@[i as int].size, parts@[i as int].padding_byte, f@);
                proof {
                    assert(region.len() == size_us);
                }
                // The part's final bytes: the input capped at the size, then
                // padding.
                let mut reg: Vec<u8> = Vec::new();
                let mut j: usize = 0;
                while j < size_us
                    invariant
                        j <= size_us,
                        reg@.len() == j,
                        forall|k: int| 0 <= k < j ==> reg@[k] == region[k],
                    decreases size_us - j,
                {
                    if j < f.len() {
                        reg.push(f[j]);
                    } else {
                        reg.push(parts[i].padding_byte);
                    }
                    j += 1;
                }
                proof {
                    assert(reg@ =~= region);
                }
                let digest = sha256_hex(reg.as_slice());
                let written: u64 = if f.len() as u64 >= parts[i].size {
                    parts[i].size
                } else {
                    f.len() as u64
                };
                let padded: u64 = parts[i].size - written;

                // Write the region over the image at the part's offset.
                let off = parts[i].offset as usize;
                let ghost prev = image@;
                let mut j: usize = 0;
                while j < size_us
                    invariant
                        j <= size_us,
                        off + size_us <= image@.len(),
                        image@.len() == prev.len(),
                        reg@ == region,
                        forall|k: int|
                            0 <= k < image@.len() ==> image@[k] == (if off <= k && k < off + j {
                                region[k - off]
                            } else {
                                prev[k]
                            }),
                    decreases size_us - j,
                {
                    image[off + j] = reg[j];
                    j += 1;
                }
                proof {
                    assert(image@ =~= overwrite(prev, off as int, region));
                }
                reports.push(Some(PartReport { written, padded, digest }));
            },
        }
        proof {
            assert(image@ == packed_prefix(pv, fv, i + 1, base));
        }
        i += 1;
    }
    (image, reports)
}

} // verus!
