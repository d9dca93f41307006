//! The selection formatter: wraps a selected character span in a
//! prefix/suffix pair and reports the new cursor position.
//!
//! Selections come as two cursor indices in either order, counted in
//! characters.  A zero-width selection is a no-op, not an error.  The same
//! primitive serves bold, italic, underline, marker wrapping and custom
//! styles; only the prefix and suffix differ.

use vstd::prelude::*;
use crate::text::{append_all, copy_range};

verus! {

/// The buffer after wrapping `[lo, hi)` in `prefix`/`suffix`.
pub open spec fn wrapped(
    buf: Seq<char>,
    lo: int,
    hi: int,
    prefix: Seq<char>,
    suffix: Seq<char>,
) -> Seq<char> {
    buf.take(lo) + prefix + buf.subrange(lo, hi) + suffix + buf.skip(hi)
}

/// Wraps the selection `[min(sel_a, sel_b), max(sel_a, sel_b))` in
/// `prefix`/`suffix`.  Returns the new buffer and the cursor position just
/// after the inserted suffix, in characters; a zero-width selection returns
/// `None` and the buffer stands unchanged, with nothing asked of the
/// caller.  A real selection must lie within the buffer, and the result
/// must fit the machine.
pub fn wrap_selection(
    buf: &Vec<char>,
    sel_a: usize,
    sel_b: usize,
    prefix: &Vec<char>,
    suffix: &Vec<char>,
) -> (r: Option<(Vec<char>, usize)>)
    requires
        sel_a != sel_b ==> sel_a <= buf@.len() && sel_b <= buf@.len() && buf@.len() + prefix@.len()
            + suffix@.len() <= usize::MAX,
    ensures
        (r is None) <==> sel_a == sel_b,
        match r {
            Some(p) => {
                let lo = if sel_a <= sel_b {
                    sel_a as int
                } else {
                    sel_b as int
                };
                let hi = if sel_a <= sel_b {
                    sel_b as int
                } else {
                    sel_a as int
                };
                &&& p.0@ == wrapped(buf@, lo, hi, prefix@, suffix@)
                &&& p.1 == lo + prefix@.len() + (hi - lo) + suffix@.len()
            },
            None => true,
        },
{
    if sel_a == sel_b {
        return None;
    }
    let lo = if sel_a <= sel_b {
        sel_a
    } else {
        sel_b
    };
    let hi = if sel_a <= sel_b {
        sel_b
    } else {
        sel_a
    };
    let mut out = copy_range(buf, 0, lo);
    append_all(&mut out, prefix);
    let middle = copy_range(buf, lo, hi);
    append_all(&mut out, &middle);
    append_all(&mut out, suffix);
    let rest = copy_range(buf, hi, buf.len());
    append_all(&mut out, &rest);
    proof {
        assert(out@ =~= wrapped(buf@, lo as int, hi as int, prefix@, suffix@));
    }
    let cursor = lo + prefix.len() + (hi - lo) + suffix.len();
    Some((out, cursor))
}

/// The opening of a block-form custom style: `::: {custom-style="` + the
/// style name + `"}` and a newline.
pub open spec fn block_style_prefix(style: Seq<char>) -> Seq<char> {
    seq![':', ':', ':', ' ', '{', 'c', 'u', 's', 't', 'o', 'm', '-', 's', 't', 'y', 'l', 'e', '=', '"']
        + style + seq!['"', '}', '\n']
}

/// The closing of a block-form custom style: a newline and `:::`.
pub open spec fn block_style_suffix() -> Seq<char> {
    seq!['\n', ':', ':', ':']
}

/// The closing of an inline-form custom style: `]{custom-style="` + the
/// style name + `"}`; its opening is a lone `[`.
pub open spec fn inline_style_suffix(style: Seq<char>) -> Seq<char> {
    seq![']', '{', 'c', 'u', 's', 't', 'o', 'm', '-', 's', 't', 'y', 'l', 'e', '=', '"'] + style
        + seq!['"', '}']
}

/// The prefix/suffix pair that wraps a selection in a named custom style:
/// the block form fences a paragraph, the inline form brackets a span.
pub fn custom_style_affixes(style: &Vec<char>, block: bool) -> (r: (Vec<char>, Vec<char>))
    ensures
        block ==> r.0@ == block_style_prefix(style@) && r.1@ == block_style_suffix(),
        !block ==> r.0@ == seq!['['] && r.1@ == inline_style_suffix(style@),
{
    if block {
        let mut prefix: Vec<char> = Vec::new();
        prefix.push(':');
        prefix.push(':');
        prefix.push(':');
        prefix.push(' ');
        prefix.push('{');
        prefix.push('c');
        prefix.push('u');
        prefix.push('s');
        prefix.push('t');
        prefix.push('o');
        prefix.push('m');
        prefix.push('-');
        prefix.push('s');
        prefix.push('t');
        prefix.push('y');
        prefix.push('l');
        prefix.push('e');
        prefix.push('=');
        prefix.push('"');
        append_all(&mut prefix, style);
        prefix.push('"');
        prefix.push('}');
        prefix.push('\n');
        let mut suffix: Vec<char> = Vec::new();
        suffix.push('\n');
        suffix.push(':');
        suffix.push(':');
        suffix.push(':');
        proof {
            assert(prefix@ =~= block_style_prefix(style@));
            assert(suffix@ =~= block_style_suffix());
        }
        (prefix, suffix)
    } else {
        let mut prefix: Vec<char> = Vec::new();
        prefix.push('[');
        let mut suffix: Vec<char> = Vec::new();
        suffix.push(']');
        suffix.push('{');
        suffix.push('c');
        suffix.push('u');
        suffix.push('s');
        suffix.push('t');
        suffix.push('o');
        suffix.push('m');
        suffix.push('-');
        suffix.push('s');
        suffix.push('t');
        suffix.push('y');
        suffix.push('l');
        suffix.push('e');
        suffix.push('=');
        suffix.push('"');
        append_all(&mut suffix, style);
        suffix.push('"');
        suffix.push('}');
        proof {
            assert(prefix@ =~= seq!['[']);
            assert(suffix@ =~= inline_style_suffix(style@));
        }
        (prefix, suffix)
    }
}

} // verus!
