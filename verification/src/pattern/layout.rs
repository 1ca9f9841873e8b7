use vstd::prelude::*;

use crate::pattern::{lemma_pattern_view, Pattern};
use crate::text::{self, decimal};
use crate::tree::Tree;

verus! {

/// How deep the text forms go before writing `...`.
pub const MAX_TEXT_DEPTH: usize = 10;

/// How many elements of a list of `len` are written: all of them, or, in a list of
/// more than ten, the first five and a note of how many more there are.
pub open spec fn shown_count(len: nat) -> nat {
    if len > 10 {
        6
    } else {
        len
    }
}

/// The note written in place of the elements past the fifth of a list of `len`.
pub open spec fn more_note(len: nat) -> Seq<char> {
    "... ("@ + decimal((len - 5) as nat) + " more)"@
}

/// The display form of `t` (whose values are already text) at `depth`:
/// `(value element element ...)`, or `...` past the greatest depth.
pub open spec fn display_text(t: Tree<String>, depth: nat) -> Seq<char>
    decreases t, t.children.len() + 1,
{
    if depth > 10 {
        "..."@
    } else if t.children.len() == 0 {
        "("@ + t.value@ + ")"@
    } else {
        "("@ + t.value@ + " "@ + display_elements(t, depth, shown_count(t.children.len())) + ")"@
    }
}

/// The display forms of the first `n` elements of `t` at `depth`, separated by spaces,
/// the sixth of a list of more than ten being the note of how many more there are.
pub open spec fn display_elements(t: Tree<String>, depth: nat, n: nat) -> Seq<char>
    decreases t, n,
{
    if n == 0 || n > t.children.len() {
        Seq::empty()
    } else {
        let i = (n - 1) as nat;
        display_elements(t, depth, i) + (if i > 0 {
            " "@
        } else {
            Seq::empty()
        }) + (if i >= 5 && t.children.len() > 10 {
            more_note(t.children.len())
        } else {
            display_text(t.children[i as int], depth + 1)
        })
    }
}

/// The debug form of `t` (whose values are already text) at `depth`:
/// `Pattern { value: v, elements: [e, e, ...] }`, or `...` past the greatest depth.
pub open spec fn debug_text(t: Tree<String>, depth: nat) -> Seq<char>
    decreases t, t.children.len() + 1,
{
    if depth > 10 {
        "..."@
    } else {
        "Pattern { value: "@ + t.value@ + ", elements: ["@ + debug_elements(t, depth, shown_count(t.children.len()))
            + "] }"@
    }
}

/// The debug forms of the first `n` elements of `t` at `depth`, separated by `, `, the
/// sixth of a list of more than ten being the note of how many more there are.
pub open spec fn debug_elements(t: Tree<String>, depth: nat, n: nat) -> Seq<char>
    decreases t, n,
{
    if n == 0 || n > t.children.len() {
        Seq::empty()
    } else {
        let i = (n - 1) as nat;
        debug_elements(t, depth, i) + (if i > 0 {
            ", "@
        } else {
            Seq::empty()
        }) + (if i >= 5 && t.children.len() > 10 {
            more_note(t.children.len())
        } else {
            debug_text(t.children[i as int], depth + 1)
        })
    }
}

/// Appends `s` to `out`.
fn push_text(out: &mut String, s: &str)
    ensures
        final(out)@ == old(out)@ + s@,
{
    out.append(s);
}

/// Appends the note of how many elements past the fifth of a list of `len` are left out.
fn push_more_note(out: &mut String, len: usize)
    requires
        len > 10,
    ensures
        final(out)@ == old(out)@ + more_note(len as nat),
{
    push_text(out, "... (");
    let count = text::usize_text(len - 5);
    push_text(out, count.as_str());
    push_text(out, " more)");
}

/// Appends the display form of `p` at `depth`.
fn display_into(p: &Pattern<String>, depth: usize, out: &mut String)
    requires
        depth <= 11,
    ensures
        final(out)@ == old(out)@ + display_text(p@, depth as nat),
    decreases p,
{
    proof {
        lemma_pattern_view(*p);
    }
    if depth > MAX_TEXT_DEPTH {
        push_text(out, "...");
        return;
    }
    let ghost start = out@;
    push_text(out, "(");
    push_text(out, p.value.as_str());
    let len = p.elements.len();
    if len == 0 {
        push_text(out, ")");
        return;
    }
    push_text(out, " ");
    let ghost head = out@;
    let shown: usize = if len > 10 {
        6
    } else {
        len
    };
    let mut i: usize = 0;
    proof {
        assert(display_elements(p@, depth as nat, 0) =~= Seq::<char>::empty());
    }
    while i < shown
        invariant
            depth <= 10,
            len == p.elements.len(),
            len == p@.children.len(),
            len > 0,
            shown == shown_count(len as nat),
            i <= shown,
            forall|k: int| 0 <= k < len ==> #[trigger] p@.children[k] == p.elements@[k]@,
            out@ == head + display_elements(p@, depth as nat, i as nat),
        decreases shown - i,
    {
        let ghost before = out@;
        if i > 0 {
            push_text(out, " ");
        }
        if i >= 5 && len > 10 {
            push_more_note(out, len);
        } else {
            display_into(&p.elements[i], depth + 1, out);
        }
        proof {
            assert(out@ =~= head + display_elements(p@, depth as nat, (i + 1) as nat));
        }
        i = i + 1;
    }
    push_text(out, ")");
    proof {
        assert(out@ =~= start + display_text(p@, depth as nat));
    }
}

/// Appends the debug form of `p` at `depth`.
fn debug_into(p: &Pattern<String>, depth: usize, out: &mut String)
    requires
        depth <= 11,
    ensures
        final(out)@ == old(out)@ + debug_text(p@, depth as nat),
    decreases p,
{
    proof {
        lemma_pattern_view(*p);
    }
    if depth > MAX_TEXT_DEPTH {
        push_text(out, "...");
        return;
    }
    let ghost start = out@;
    push_text(out, "Pattern { value: ");
    push_text(out, p.value.as_str());
    push_text(out, ", elements: [");
    let ghost head = out@;
    let len = p.elements.len();
    let shown: usize = if len > 10 {
        6
    } else {
        len
    };
    let mut i: usize = 0;
    proof {
        assert(debug_elements(p@, depth as nat, 0) =~= Seq::<char>::empty());
    }
    while i < shown
        invariant
            depth <= 10,
            len == p.elements.len(),
            len == p@.children.len(),
            shown == shown_count(len as nat),
            i <= shown,
            forall|k: int| 0 <= k < len ==> #[trigger] p@.children[k] == p.elements@[k]@,
            out@ == head + debug_elements(p@, depth as nat, i as nat),
        decreases shown - i,
    {
        if i > 0 {
            push_text(out, ", ");
        }
        if i >= 5 && len > 10 {
            push_more_note(out, len);
        } else {
            debug_into(&p.elements[i], depth + 1, out);
        }
        proof {
            assert(out@ =~= head + debug_elements(p@, depth as nat, (i + 1) as nat));
        }
        i = i + 1;
    }
    push_text(out, "] }");
    proof {
        assert(out@ =~= start + debug_text(p@, depth as nat));
    }
}

/// The display form of a pattern whose values are given as their display texts:
/// `(value element element ...)`, eliding past a depth of ten and, in lists of more
/// than ten elements, after the fifth.
pub fn display_layout(p: &Pattern<String>) -> (r: String)
    ensures
        r@ == display_text(p@, 0),
{
    let mut out = text::owned("");
    proof {
        reveal_strlit("");
        assert(out@ =~= Seq::<char>::empty());
    }
    display_into(p, 0, &mut out);
    proof {
        assert(out@ =~= display_text(p@, 0));
    }
    out
}

/// The debug form of a pattern whose values are given as their debug texts:
/// `Pattern { value: v, elements: [e, e, ...] }`, elided as the display form is.
pub fn debug_layout(p: &Pattern<String>) -> (r: String)
    ensures
        r@ == debug_text(p@, 0),
{
    let mut out = text::owned("");
    proof {
        reveal_strlit("");
        assert(out@ =~= Seq::<char>::empty());
    }
    debug_into(p, 0, &mut out);
    proof {
        assert(out@ =~= debug_text(p@, 0));
    }
    out
}

} // verus!
