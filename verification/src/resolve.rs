//! The size resolver: fills in any missing part size, in declaration order,
//! from the next part's offset, from the total image size (unpack), or from
//! the companion file's size (pack).

use vstd::prelude::*;

use crate::parts::{part_views, FirmwarePart, PartV};

verus! {

/// `a - b` modulo 2^64, as `u64` subtraction wraps. A misordered layout thus
/// silently produces an invalid size; that permissive behaviour is kept, not
/// corrected.
pub open spec fn wrap_sub(a: u64, b: u64) -> u64 {
    if a >= b {
        (a - b) as u64
    } else {
        (a - b + 0x1_0000_0000_0000_0000) as u64
    }
}

/// What the resolver leaves as part `i`'s size: an explicit size is kept; a
/// part before another takes the distance to the next part's offset; a last
/// part takes what remains of the image (unpack, when the image size is
/// known and positive) or its companion file's size (pack, when that file
/// exists); otherwise the size stays as it was.
pub open spec fn resolved_size(
    parts: Seq<PartV>,
    i: int,
    is_unpack: bool,
    total_size: u64,
    file_sizes: Seq<Option<u64>>,
) -> u64 {
    let p = parts[i];
    if p.has_explicit_size {
        p.size
    } else if i < parts.len() - 1 {
        wrap_sub(parts[i + 1].offset, p.offset)
    } else if is_unpack {
        if total_size > 0 {
            wrap_sub(total_size, p.offset)
        } else {
            p.size
        }
    } else {
        match file_sizes[i] {
            Some(s) => s,
            None => p.size,
        }
    }
}

/// Whether resolution must warn: packing, the last part has no explicit size,
/// and its companion file's size is unknown. The size is then left as it is.
pub open spec fn resolver_warning(
    parts: Seq<PartV>,
    is_unpack: bool,
    file_sizes: Seq<Option<u64>>,
) -> bool {
    parts.len() > 0 && !parts.last().has_explicit_size && !is_unpack && file_sizes.last() is None
}

/// `a - b` with wraparound, computed without overflow.
fn sub_wrap(a: u64, b: u64) -> (r: u64)
    ensures
        r == wrap_sub(a, b),
{
    if a >= b {
        a - b
    } else {
        (u64::MAX - b) + a + 1
    }
}

/// Resolves every missing size in place, in declaration order. `total_size`
/// is the source image's size (meaningful for unpack); `file_sizes` gives
/// each part's companion file size, where that file exists. Returns the index
/// of the part to warn about, when packing leaves a last part unresolved.
#[verifier::loop_isolation(false)]
pub fn calculate_sizes(
    parts: &mut Vec<FirmwarePart>,
    is_unpack: bool,
    total_size: u64,
    file_sizes: &Vec<Option<u64>>,
) -> (warn: Option<usize>)
    requires
        file_sizes@.len() == old(parts)@.len(),
    ensures
        final(parts)@.len() == old(parts)@.len(),
        forall|j: int|
            0 <= j < final(parts)@.len() ==> {
                &&& (#[trigger] final(parts)@[j]).name == old(parts)@[j].name
                &&& final(parts)@[j].offset == old(parts)@[j].offset
                &&& final(parts)@[j].padding_byte == old(parts)@[j].padding_byte
                &&& final(parts)@[j].use_custom_padding == old(parts)@[j].use_custom_padding
                &&& final(parts)@[j].has_explicit_size == old(parts)@[j].has_explicit_size
                &&& final(parts)@[j].size == resolved_size(
                    part_views(old(parts)@),
                    j,
                    is_unpack,
                    total_size,
                    file_sizes@,
                )
            },
        warn == if resolver_warning(part_views(old(parts)@), is_unpack, file_sizes@) {
            Some((old(parts)@.len() - 1) as usize)
        } else {
            None::<usize>
        },
{
    let ghost ov = part_views(old(parts)@);
    let n = parts.len();
    let mut warn: Option<usize> = None;
    let mut i: usize = 0;
    while i < n
        invariant
            i <= n,
            parts@.len() == n,
            forall|j: int|
                i <= j < n ==> #[trigger] parts@[j] == old(parts)@[j],
            forall|j: int|
                0 <= j < i ==> {
                    &&& (#[trigger] parts@[j]).name == old(parts)@[j].name
                    &&& parts@[j].offset == old(parts)@[j].offset
                    &&& parts@[j].padding_byte == old(parts)@[j].padding_byte
                    &&& parts@[j].use_custom_padding == old(parts)@[j].use_custom_padding
                    &&& parts@[j].has_explicit_size == old(parts)@[j].has_explicit_size
                    &&& parts@[j].size == resolved_size(ov, j, is_unpack, total_size, file_sizes@)
                },
            warn == if i == n && resolver_warning(ov, is_unpack, file_sizes@) {
                Some((n - 1) as usize)
            } else {
                None::<usize>
            },
        decreases n - i,
    {
        if !parts[i].has_explicit_size {
            if i + 1 < n {
                let v = sub_wrap(parts[i + 1].offset, parts[i].offset);
                parts[i].size = v;
            } else if is_unpack {
                if total_size > 0 {
                    let v = sub_wrap(total_size, parts[i].offset);
                    parts[i].size = v;
                }
            } else {
                match file_sizes[i] {
                    Some(s) => {
                        parts[i].size = s;
                    },
                    None => {
                        warn = Some(i);
                    },
                }
            }
        }
        i += 1;
    }
    warn
}

} // verus!
