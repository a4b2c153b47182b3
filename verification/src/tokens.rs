//! The tokenizer: pure functions that split a text buffer into trimmed
//! substrings by configurable character classes.
//!
//! Text is handled as slices of characters.  A cursor into the line buffer is
//! a subslice, and slicing only ever narrows the view; the text is never
//! copied while routing or binding.  An empty slice plays the role of the
//! absent cursor ("no text remains"): `opt_of` maps it to `None` at the
//! specification level.

use vstd::prelude::*;
use vstd::slice::slice_index_get;
use vstd::slice::slice_subrange;

verus! {

/// Membership of a character in a character class.
pub open spec fn in_class(class: Seq<char>, c: char) -> bool {
    class.contains(c)
}

/// What remains of `s` once every leading character drawn from `class` is
/// removed.
pub open spec fn trim_start_spec(s: Seq<char>, class: Seq<char>) -> Seq<char>
    decreases s.len(),
{
    if s.len() > 0 && in_class(class, s[0]) {
        trim_start_spec(s.skip(1), class)
    } else {
        s
    }
}

/// What remains of `s` once every trailing character drawn from `class` is
/// removed.
pub open spec fn trim_end_spec(s: Seq<char>, class: Seq<char>) -> Seq<char>
    decreases s.len(),
{
    if s.len() > 0 && in_class(class, s[s.len() - 1]) {
        trim_end_spec(s.take(s.len() - 1), class)
    } else {
        s
    }
}

/// `s` trimmed of class characters at both ends.
pub open spec fn trim_spec(s: Seq<char>, class: Seq<char>) -> Seq<char> {
    trim_end_spec(trim_start_spec(s, class), class)
}

/// A sequence is trimmed when neither end carries a class character.
pub open spec fn is_trimmed(s: Seq<char>, class: Seq<char>) -> bool {
    s.len() > 0 ==> !in_class(class, s[0]) && !in_class(class, s[s.len() - 1])
}

/// The specification-level cursor: an empty text stands for "no text
/// remains".
pub open spec fn opt_of(s: Seq<char>) -> Option<Seq<char>> {
    if s.len() == 0 {
        None
    } else {
        Some(s)
    }
}

/// A measure on cursors, used to show that consuming a token shrinks the
/// input.
pub open spec fn opt_len(c: Option<Seq<char>>) -> nat {
    match c {
        None => 0,
        Some(s) => s.len() + 1,
    }
}

/// Length of the leading run of `s` that is free of class characters; the
/// first token of a trimmed cursor ends here, and on untrimmed text this is
/// the position of the first class character.
pub open spec fn token_len(s: Seq<char>, class: Seq<char>) -> nat
    decreases s.len(),
{
    if s.len() == 0 {
        0
    } else if in_class(class, s[0]) {
        0
    } else {
        1 + token_len(s.skip(1), class)
    }
}

/// The first token of a trimmed cursor.
pub open spec fn head_tok(s: Seq<char>, class: Seq<char>) -> Seq<char> {
    s.take(token_len(s, class) as int)
}

/// The residual cursor after removing the first token and the separator run
/// behind it: the remainder, re-trimmed, or `None` when nothing is left.
pub open spec fn token_rest(s: Seq<char>, class: Seq<char>) -> Option<Seq<char>> {
    let k = token_len(s, class) as int;
    if k < s.len() {
        opt_of(trim_spec(s.skip(k + 1), class))
    } else {
        None
    }
}

/// The remainder handed to the next round of command splitting: everything
/// from the first separator character onward (empty when there is none).
pub open spec fn split_residue(s: Seq<char>, class: Seq<char>) -> Seq<char> {
    let t = trim_spec(s, class);
    let k = token_len(t, class) as int;
    if k < t.len() {
        t.skip(k)
    } else {
        Seq::empty()
    }
}

/// The first separator-free piece of `s`, after trimming separators at both
/// ends.
pub open spec fn split_first(s: Seq<char>, class: Seq<char>) -> Seq<char> {
    head_tok(trim_spec(s, class), class)
}

/// `trim_start_spec` drops exactly the leading run of class characters.
pub proof fn lemma_trim_start_at(s: Seq<char>, class: Seq<char>, k: int)
    requires
        0 <= k <= s.len(),
        forall|j: int| 0 <= j < k ==> in_class(class, s[j]),
        k < s.len() ==> !in_class(class, s[k]),
    ensures
        trim_start_spec(s, class) == s.skip(k),
    decreases k,
{
    if k == 0 {
        assert(s.skip(0) =~= s);
    } else {
        assert(in_class(class, s[0]));
        assert forall|j: int| 0 <= j < k - 1 implies in_class(class, s.skip(1)[j]) by {
            assert(s.skip(1)[j] == s[j + 1]);
        }
        assert(k - 1 < s.skip(1).len() ==> !in_class(class, s.skip(1)[k - 1])) by {
            if k - 1 < s.skip(1).len() {
                assert(s.skip(1)[k - 1] == s[k]);
            }
        }
        lemma_trim_start_at(s.skip(1), class, k - 1);
        assert(s.skip(1).skip(k - 1) =~= s.skip(k));
    }
}

/// `trim_end_spec` drops exactly the trailing run of class characters.
pub proof fn lemma_trim_end_at(s: Seq<char>, class: Seq<char>, k: int)
    requires
        0 <= k <= s.len(),
        forall|j: int| k <= j < s.len() ==> in_class(class, s[j]),
        k > 0 ==> !in_class(class, s[k - 1]),
    ensures
        trim_end_spec(s, class) == s.take(k),
    decreases s.len() - k,
{
    if k == s.len() {
        if s.len() > 0 {
            assert(!in_class(class, s[s.len() - 1]));
        }
        assert(s.take(k) =~= s);
    } else {
        assert(in_class(class, s[s.len() - 1]));
        let t = s.take(s.len() - 1);
        assert forall|j: int| k <= j < t.len() implies in_class(class, t[j]) by {
            assert(t[j] == s[j]);
        }
        assert(k > 0 ==> !in_class(class, t[k - 1])) by {
            if k > 0 {
                assert(t[k - 1] == s[k - 1]);
            }
        }
        lemma_trim_end_at(t, class, k);
        assert(t.take(k) =~= s.take(k));
    }
}

/// The result of `trim_start_spec` is no longer than its input and starts
/// with a character outside the class.
pub proof fn lemma_trim_start_props(s: Seq<char>, class: Seq<char>)
    ensures
        trim_start_spec(s, class).len() <= s.len(),
        trim_start_spec(s, class).len() > 0 ==> !in_class(
            class,
            trim_start_spec(s, class)[0],
        ),
    decreases s.len(),
{
    if s.len() > 0 && in_class(class, s[0]) {
        lemma_trim_start_props(s.skip(1), class);
    }
}

/// The result of `trim_end_spec` is a prefix of its input and ends with a
/// character outside the class.
pub proof fn lemma_trim_end_props(s: Seq<char>, class: Seq<char>)
    ensures
        trim_end_spec(s, class).len() <= s.len(),
        trim_end_spec(s, class) == s.take(trim_end_spec(s, class).len() as int),
        trim_end_spec(s, class).len() > 0 ==> !in_class(
            class,
            trim_end_spec(s, class)[trim_end_spec(s, class).len() - 1],
        ),
    decreases s.len(),
{
    if s.len() > 0 && in_class(class, s[s.len() - 1]) {
        let t = s.take(s.len() - 1);
        lemma_trim_end_props(t, class);
        assert(t.take(trim_end_spec(t, class).len() as int) =~= s.take(
            trim_end_spec(t, class).len() as int,
        ));
    } else {
        assert(s.take(s.len() as int) =~= s);
    }
}

/// Trimming shortens the text and leaves it trimmed.
pub proof fn lemma_trim_props(s: Seq<char>, class: Seq<char>)
    ensures
        trim_spec(s, class).len() <= s.len(),
        is_trimmed(trim_spec(s, class), class),
{
    lemma_trim_start_props(s, class);
    let ts = trim_start_spec(s, class);
    lemma_trim_end_props(ts, class);
    let te = trim_end_spec(ts, class);
    if te.len() > 0 {
        assert(te[0] == ts.take(te.len() as int)[0]);
    }
}

/// Trimming an already trimmed text changes nothing.
pub proof fn lemma_trim_trimmed(s: Seq<char>, class: Seq<char>)
    requires
        is_trimmed(s, class),
    ensures
        trim_spec(s, class) == s,
{
    if s.len() == 0 {
        assert(trim_start_spec(s, class) == s);
        assert(trim_end_spec(s, class) == s);
    } else {
        assert(trim_start_spec(s, class) == s);
        assert(trim_end_spec(s, class) == s);
    }
}

/// The characterization of `token_len`: it is bounded by the length, every
/// character before it is outside the class, and the character at it (if
/// any) is in the class.
pub proof fn lemma_token_len_props(s: Seq<char>, class: Seq<char>)
    ensures
        token_len(s, class) <= s.len(),
        forall|j: int| 0 <= j < token_len(s, class) ==> !in_class(class, s[j]),
        token_len(s, class) < s.len() ==> in_class(class, s[token_len(s, class) as int]),
    decreases s.len(),
{
    if s.len() > 0 && !in_class(class, s[0]) {
        lemma_token_len_props(s.skip(1), class);
        assert forall|j: int| 0 <= j < token_len(s, class) implies !in_class(class, s[j]) by {
            if j > 0 {
                assert(s.skip(1)[j - 1] == s[j]);
            }
        }
        if token_len(s, class) < s.len() {
            assert(s.skip(1)[token_len(s.skip(1), class) as int] == s[token_len(
                s,
                class,
            ) as int]);
        }
    }
}

/// Any position with the first-class-character property is `token_len`.
pub proof fn lemma_token_len_at(s: Seq<char>, class: Seq<char>, k: int)
    requires
        0 <= k <= s.len(),
        forall|j: int| 0 <= j < k ==> !in_class(class, s[j]),
        k < s.len() ==> in_class(class, s[k]),
    ensures
        token_len(s, class) == k,
    decreases k,
{
    if k == 0 {
    } else {
        assert(!in_class(class, s[0]));
        assert forall|j: int| 0 <= j < k - 1 implies !in_class(class, s.skip(1)[j]) by {
            assert(s.skip(1)[j] == s[j + 1]);
        }
        assert(k - 1 < s.skip(1).len() ==> in_class(class, s.skip(1)[k - 1])) by {
            if k - 1 < s.skip(1).len() {
                assert(s.skip(1)[k - 1] == s[k]);
            }
        }
        lemma_token_len_at(s.skip(1), class, k - 1);
    }
}

/// Consuming the first token strictly shrinks the cursor measure.
pub proof fn lemma_token_rest_shrinks(s: Seq<char>, class: Seq<char>)
    ensures
        opt_len(token_rest(s, class)) < s.len() + 1,
{
    let k = token_len(s, class) as int;
    lemma_token_len_props(s, class);
    if k < s.len() {
        lemma_trim_props(s.skip(k + 1), class);
    }
}

/// The tokens of a trimmed cursor, in order: what repeatedly taking
/// `next_token` yields until the cursor is exhausted.
pub open spec fn cursor_tokens(t: Seq<char>, class: Seq<char>) -> Seq<Seq<char>>
    decreases t.len(),
    via cursor_tokens_decreases
{
    if t.len() == 0 {
        Seq::empty()
    } else {
        let k = token_len(t, class) as int;
        if k >= t.len() {
            seq![t]
        } else {
            seq![t.take(k)] + cursor_tokens(trim_spec(t.skip(k + 1), class), class)
        }
    }
}

#[via_fn]
proof fn cursor_tokens_decreases(t: Seq<char>, class: Seq<char>) {
    if t.len() > 0 {
        let k = token_len(t, class) as int;
        lemma_token_len_props(t, class);
        if k < t.len() {
            lemma_trim_props(t.skip(k + 1), class);
        }
    }
}

/// The tokens of a text, in order.
pub open spec fn tokens_of(s: Seq<char>, class: Seq<char>) -> Seq<Seq<char>> {
    cursor_tokens(trim_spec(s, class), class)
}

/// Splitting off the first token: the token list of a trimmed, non-empty
/// cursor is its head token followed by the token list of its residual.
pub proof fn lemma_cursor_tokens_step(s: Seq<char>, class: Seq<char>)
    requires
        is_trimmed(s, class),
        s.len() > 0,
    ensures
        cursor_tokens(s, class) == seq![head_tok(s, class)] + (match token_rest(s, class) {
            None => Seq::<Seq<char>>::empty(),
            Some(s2) => cursor_tokens(s2, class),
        }),
        (match token_rest(s, class) {
            None => true,
            Some(s2) => is_trimmed(s2, class) && s2.len() > 0,
        }),
{
    lemma_token_len_props(s, class);
    let k = token_len(s, class) as int;
    if k >= s.len() {
        assert(head_tok(s, class) =~= s);
        assert(cursor_tokens(s, class) == seq![s]);
        assert(seq![head_tok(s, class)] + Seq::<Seq<char>>::empty() =~= seq![
            head_tok(s, class),
        ]);
    } else {
        let tail = trim_spec(s.skip(k + 1), class);
        lemma_trim_props(s.skip(k + 1), class);
        if tail.len() == 0 {
            assert(cursor_tokens(s, class) == seq![s.take(k)] + cursor_tokens(tail, class));
            assert(cursor_tokens(tail, class) =~= Seq::<Seq<char>>::empty());
        }
    }
}

/// The texts of `parts` joined with a single `c` between neighbours.
pub open spec fn join_with(parts: Seq<Seq<char>>, c: char) -> Seq<char>
    decreases parts.len(),
{
    if parts.len() == 0 {
        Seq::empty()
    } else if parts.len() == 1 {
        parts[0]
    } else {
        parts[0] + seq![c] + join_with(parts.skip(1), c)
    }
}

/// Every token is non-empty and free of class characters.
pub proof fn lemma_tokens_wf(t: Seq<char>, class: Seq<char>)
    requires
        is_trimmed(t, class),
    ensures
        forall|i: int| 0 <= i < cursor_tokens(t, class).len() ==> (#[trigger] cursor_tokens(
            t,
            class,
        )[i]).len() > 0,
        forall|i: int, j: int|
            0 <= i < cursor_tokens(t, class).len() && 0 <= j < cursor_tokens(t, class)[i].len()
                ==> !in_class(class, #[trigger] cursor_tokens(t, class)[i][j]),
    decreases t.len(),
{
    if t.len() > 0 {
        let k = token_len(t, class) as int;
        lemma_token_len_props(t, class);
        assert(!in_class(class, t[0]));
        assert(k >= 1);
        if k >= t.len() {
            assert(cursor_tokens(t, class) =~= seq![t]);
        } else {
            lemma_trim_props(t.skip(k + 1), class);
            let tail = trim_spec(t.skip(k + 1), class);
            lemma_tokens_wf(tail, class);
            let toks = cursor_tokens(t, class);
            assert(toks == seq![t.take(k)] + cursor_tokens(tail, class));
            assert forall|i: int| 0 <= i < toks.len() implies (#[trigger] toks[i]).len() > 0 by {
                if i == 0 {
                    assert(toks[0] == t.take(k));
                } else {
                    assert(toks[i] == cursor_tokens(tail, class)[i - 1]);
                }
            }
            assert forall|i: int, j: int|
                0 <= i < toks.len() && 0 <= j < toks[i].len() implies !in_class(
                class,
                #[trigger] toks[i][j],
            ) by {
                if i == 0 {
                    assert(toks[0] == t.take(k));
                    assert(toks[0][j] == t[j]);
                } else {
                    assert(toks[i] == cursor_tokens(tail, class)[i - 1]);
                }
            }
        }
    }
}

/// A join of non-empty parts is non-empty and keeps the outer characters
/// of the outer parts at its ends.
pub proof fn lemma_join_ends(parts: Seq<Seq<char>>, c: char)
    requires
        parts.len() > 0,
        forall|i: int| 0 <= i < parts.len() ==> (#[trigger] parts[i]).len() > 0,
    ensures
        join_with(parts, c).len() > 0,
        join_with(parts, c)[0] == parts[0][0],
        join_with(parts, c).last() == parts.last().last(),
    decreases parts.len(),
{
    if parts.len() == 1 {
    } else {
        lemma_join_ends(parts.skip(1), c);
        let j = join_with(parts, c);
        let tail = join_with(parts.skip(1), c);
        assert(j == parts[0] + seq![c] + tail);
        assert(j[0] == parts[0][0]);
        assert(j.last() == tail.last());
        assert(parts.skip(1)[0].len() > 0);
        assert(parts.skip(1).last() == parts.last());
    }
}

/// Rejoining tokens with one class character and re-tokenizing yields the
/// tokens back.
pub proof fn lemma_tokens_of_join(parts: Seq<Seq<char>>, class: Seq<char>, c: char)
    requires
        in_class(class, c),
        forall|i: int| 0 <= i < parts.len() ==> (#[trigger] parts[i]).len() > 0,
        forall|i: int, j: int|
            0 <= i < parts.len() && 0 <= j < parts[i].len() ==> !in_class(
                class,
                #[trigger] parts[i][j],
            ),
    ensures
        tokens_of(join_with(parts, c), class) == parts,
    decreases parts.len(),
{
    if parts.len() == 0 {
        assert(join_with(parts, c) == Seq::<char>::empty());
        assert(trim_spec(Seq::<char>::empty(), class) == Seq::<char>::empty());
        assert(tokens_of(join_with(parts, c), class) =~= parts);
    } else if parts.len() == 1 {
        let p = parts[0];
        assert forall|j: int| 0 <= j < p.len() implies !in_class(class, p[j]) by {
            assert(parts[0][j] == p[j]);
        }
        assert(is_trimmed(p, class));
        lemma_trim_trimmed(p, class);
        lemma_token_len_at(p, class, p.len() as int);
        assert(cursor_tokens(p, class) == seq![p]);
        assert(seq![p] =~= parts);
    } else {
        let p = parts[0];
        let rest = parts.skip(1);
        let tail = join_with(rest, c);
        let j = join_with(parts, c);
        assert(j == p + seq![c] + tail);
        lemma_join_ends(parts, c);
        assert forall|i: int| 0 <= i < rest.len() implies (#[trigger] rest[i]).len() > 0 by {
            assert(rest[i] == parts[i + 1]);
        }
        assert forall|i: int, k: int|
            0 <= i < rest.len() && 0 <= k < rest[i].len() implies !in_class(
            class,
            #[trigger] rest[i][k],
        ) by {
            assert(rest[i] == parts[i + 1]);
        }
        lemma_join_ends(rest, c);
        // the join is trimmed: its first and last characters come from
        // class-free parts
        assert(j[0] == p[0]);
        assert(!in_class(class, j[0]));
        assert(j.last() == rest.last().last());
        assert(rest.last() == parts.last());
        assert(!in_class(class, j.last()));
        assert(is_trimmed(j, class));
        lemma_trim_trimmed(j, class);
        // the first token of the join is exactly parts[0]
        assert forall|k: int| 0 <= k < p.len() implies !in_class(class, j[k]) by {
            assert(j[k] == p[k]);
        }
        assert(j[p.len() as int] == c);
        lemma_token_len_at(j, class, p.len() as int);
        let k = p.len() as int;
        assert(k < j.len());
        assert(j.take(k) =~= p);
        assert(j.skip(k + 1) =~= tail);
        // the remainder is the join of the remaining parts, already trimmed
        assert(tail[0] == rest[0][0]);
        assert(!in_class(class, tail[0]));
        assert(!in_class(class, tail.last()));
        assert(is_trimmed(tail, class));
        lemma_trim_trimmed(tail, class);
        lemma_tokens_of_join(rest, class, c);
        assert(cursor_tokens(j, class) == seq![p] + cursor_tokens(tail, class));
        assert(tokens_of(tail, class) == rest);
        assert(cursor_tokens(tail, class) == rest);
        assert(seq![p] + rest =~= parts);
    }
}

/// For all texts and whitespace classes: tokenizing, re-joining the tokens
/// with a single class character, and tokenizing again yields the same
/// token sequence.
pub proof fn lemma_rejoin_retokenize(s: Seq<char>, class: Seq<char>, c: char)
    requires
        in_class(class, c),
    ensures
        tokens_of(join_with(tokens_of(s, class), c), class) == tokens_of(s, class),
{
    lemma_trim_props(s, class);
    lemma_tokens_wf(trim_spec(s, class), class);
    lemma_tokens_of_join(tokens_of(s, class), class, c);
}

/// Trimming preserves any property that every character has.
pub proof fn lemma_trim_start_pred(s: Seq<char>, class: Seq<char>, p: spec_fn(char) -> bool)
    requires
        forall|i: int| 0 <= i < s.len() ==> p(s[i]),
    ensures
        forall|i: int|
            0 <= i < trim_start_spec(s, class).len() ==> p(trim_start_spec(s, class)[i]),
    decreases s.len(),
{
    if s.len() > 0 && in_class(class, s[0]) {
        assert forall|i: int| 0 <= i < s.skip(1).len() implies p(s.skip(1)[i]) by {
            assert(s.skip(1)[i] == s[i + 1]);
        }
        lemma_trim_start_pred(s.skip(1), class, p);
        assert forall|i: int|
            0 <= i < trim_start_spec(s, class).len() implies p(trim_start_spec(s, class)[i]) by {
            assert(trim_start_spec(s, class) == trim_start_spec(s.skip(1), class));
            assert(p(trim_start_spec(s.skip(1), class)[i]));
        }
    } else {
        assert forall|i: int|
            0 <= i < trim_start_spec(s, class).len() implies p(trim_start_spec(s, class)[i]) by {
            assert(trim_start_spec(s, class) == s);
            assert(p(s[i]));
        }
    }
}

/// Trimming preserves any property that every character has.
pub proof fn lemma_trim_end_pred(s: Seq<char>, class: Seq<char>, p: spec_fn(char) -> bool)
    requires
        forall|i: int| 0 <= i < s.len() ==> p(s[i]),
    ensures
        forall|i: int| 0 <= i < trim_end_spec(s, class).len() ==> p(trim_end_spec(s, class)[i]),
    decreases s.len(),
{
    if s.len() > 0 && in_class(class, s[s.len() - 1]) {
        let t = s.take(s.len() - 1);
        assert forall|i: int| 0 <= i < t.len() implies p(t[i]) by {
            assert(t[i] == s[i]);
        }
        lemma_trim_end_pred(t, class, p);
        assert forall|i: int|
            0 <= i < trim_end_spec(s, class).len() implies p(trim_end_spec(s, class)[i]) by {
            assert(trim_end_spec(s, class) == trim_end_spec(t, class));
            assert(p(trim_end_spec(t, class)[i]));
        }
    } else {
        assert forall|i: int|
            0 <= i < trim_end_spec(s, class).len() implies p(trim_end_spec(s, class)[i]) by {
            assert(trim_end_spec(s, class) == s);
            assert(p(s[i]));
        }
    }
}

/// Trimming preserves any property that every character has.
pub proof fn lemma_trim_pred(s: Seq<char>, class: Seq<char>, p: spec_fn(char) -> bool)
    requires
        forall|i: int| 0 <= i < s.len() ==> p(s[i]),
    ensures
        forall|i: int| 0 <= i < trim_spec(s, class).len() ==> p(trim_spec(s, class)[i]),
{
    lemma_trim_start_pred(s, class, p);
    lemma_trim_end_pred(trim_start_spec(s, class), class, p);
}

/// Membership in a concatenated class is membership in either part.
pub proof fn lemma_in_class_union(a: Seq<char>, b: Seq<char>, c: char)
    ensures
        in_class(a + b, c) <==> in_class(a, c) || in_class(b, c),
{
    if in_class(a, c) {
        let m = choose|m: int| 0 <= m < a.len() && a[m] == c;
        assert((a + b)[m] == c);
    }
    if in_class(b, c) {
        let m = choose|m: int| 0 <= m < b.len() && b[m] == c;
        assert((a + b)[a.len() + m] == c);
    }
    if in_class(a + b, c) {
        let m = choose|m: int| 0 <= m < (a + b).len() && (a + b)[m] == c;
        if m < a.len() {
            assert(a[m] == c);
        } else {
            assert(b[m - a.len()] == c);
        }
    }
}

proof fn lemma_trim_start_empty(s: Seq<char>, class: Seq<char>)
    requires
        trim_start_spec(s, class).len() == 0,
    ensures
        forall|i: int| 0 <= i < s.len() ==> in_class(class, #[trigger] s[i]),
    decreases s.len(),
{
    if s.len() > 0 {
        assert(in_class(class, s[0]));
        lemma_trim_start_empty(s.skip(1), class);
        assert forall|i: int| 0 <= i < s.len() implies in_class(class, #[trigger] s[i]) by {
            if i > 0 {
                assert(s.skip(1)[i - 1] == s[i]);
            }
        }
    }
}

proof fn lemma_trim_end_empty(s: Seq<char>, class: Seq<char>)
    requires
        trim_end_spec(s, class).len() == 0,
    ensures
        forall|i: int| 0 <= i < s.len() ==> in_class(class, #[trigger] s[i]),
    decreases s.len(),
{
    if s.len() > 0 {
        assert(in_class(class, s[s.len() - 1]));
        let t = s.take(s.len() - 1);
        lemma_trim_end_empty(t, class);
        assert forall|i: int| 0 <= i < s.len() implies in_class(class, #[trigger] s[i]) by {
            if i < s.len() - 1 {
                assert(t[i] == s[i]);
            }
        }
    }
}

/// A text that trims to nothing consists of class characters alone.
pub proof fn lemma_trim_empty_all_class(s: Seq<char>, class: Seq<char>)
    requires
        trim_spec(s, class).len() == 0,
    ensures
        forall|i: int| 0 <= i < s.len() ==> in_class(class, #[trigger] s[i]),
{
    let ts = trim_start_spec(s, class);
    lemma_trim_start_props(s, class);
    lemma_trim_end_empty(ts, class);
    if ts.len() > 0 {
        assert(in_class(class, ts[0]));
        assert(false);
    }
    lemma_trim_start_empty(s, class);
}

proof fn lemma_trim_start_keeps(s: Seq<char>, class: Seq<char>, p: spec_fn(char) -> bool)
    requires
        exists|i: int| 0 <= i < s.len() && p(#[trigger] s[i]),
        forall|c: char| p(c) ==> !in_class(class, c),
    ensures
        exists|i: int|
            0 <= i < trim_start_spec(s, class).len() && p(#[trigger] trim_start_spec(s, class)[i]),
    decreases s.len(),
{
    let w = choose|i: int| 0 <= i < s.len() && p(s[i]);
    if s.len() > 0 && in_class(class, s[0]) {
        assert(w != 0);
        assert(s.skip(1)[w - 1] == s[w]);
        lemma_trim_start_keeps(s.skip(1), class, p);
        let w2 = choose|i: int|
            0 <= i < trim_start_spec(s.skip(1), class).len() && p(
                #[trigger] trim_start_spec(s.skip(1), class)[i],
            );
        assert(trim_start_spec(s, class)[w2] == trim_start_spec(s.skip(1), class)[w2]);
    } else {
        assert(trim_start_spec(s, class)[w] == s[w]);
    }
}

proof fn lemma_trim_end_keeps(s: Seq<char>, class: Seq<char>, p: spec_fn(char) -> bool)
    requires
        exists|i: int| 0 <= i < s.len() && p(#[trigger] s[i]),
        forall|c: char| p(c) ==> !in_class(class, c),
    ensures
        exists|i: int|
            0 <= i < trim_end_spec(s, class).len() && p(#[trigger] trim_end_spec(s, class)[i]),
    decreases s.len(),
{
    let w = choose|i: int| 0 <= i < s.len() && p(s[i]);
    if s.len() > 0 && in_class(class, s[s.len() - 1]) {
        assert(w != s.len() - 1);
        let t = s.take(s.len() - 1);
        assert(t[w] == s[w]);
        lemma_trim_end_keeps(t, class, p);
        let w2 = choose|i: int|
            0 <= i < trim_end_spec(t, class).len() && p(#[trigger] trim_end_spec(t, class)[i]);
        assert(trim_end_spec(s, class)[w2] == trim_end_spec(t, class)[w2]);
    } else {
        assert(trim_end_spec(s, class)[w] == s[w]);
    }
}

/// Trimming keeps some character satisfying `p`, provided `p` characters
/// are never in the trimmed class.
pub proof fn lemma_trim_keeps(s: Seq<char>, class: Seq<char>, p: spec_fn(char) -> bool)
    requires
        exists|i: int| 0 <= i < s.len() && p(#[trigger] s[i]),
        forall|c: char| p(c) ==> !in_class(class, c),
    ensures
        exists|i: int| 0 <= i < trim_spec(s, class).len() && p(#[trigger] trim_spec(s, class)[i]),
{
    lemma_trim_start_keeps(s, class, p);
    lemma_trim_end_keeps(trim_start_spec(s, class), class, p);
    let w = choose|i: int|
        0 <= i < trim_end_spec(trim_start_spec(s, class), class).len() && p(
            #[trigger] trim_end_spec(trim_start_spec(s, class), class)[i],
        );
    assert(trim_spec(s, class)[w] == trim_end_spec(trim_start_spec(s, class), class)[w]);
}

/// A text of class characters alone trims to nothing.
pub proof fn lemma_trim_all_class(s: Seq<char>, class: Seq<char>)
    requires
        forall|i: int| 0 <= i < s.len() ==> in_class(class, s[i]),
    ensures
        trim_spec(s, class).len() == 0,
    decreases s.len(),
{
    if s.len() > 0 {
        assert(in_class(class, s[0]));
        assert forall|i: int| 0 <= i < s.skip(1).len() implies in_class(class, s.skip(1)[i]) by {
            assert(s.skip(1)[i] == s[i + 1]);
        }
        lemma_trim_all_class(s.skip(1), class);
        assert(trim_start_spec(s, class) == trim_start_spec(s.skip(1), class));
        assert(trim_end_spec(trim_start_spec(s.skip(1), class), class) == trim_spec(
            s.skip(1),
            class,
        ));
    }
}

/// A text of separator and whitespace characters alone yields zero tokens.
pub proof fn lemma_only_separators_no_tokens(s: Seq<char>, class: Seq<char>)
    requires
        forall|i: int| 0 <= i < s.len() ==> in_class(class, s[i]),
    ensures
        tokens_of(s, class) == Seq::<Seq<char>>::empty(),
{
    lemma_trim_all_class(s, class);
    assert(tokens_of(s, class) =~= Seq::<Seq<char>>::empty());
}

/// True when `c` is a member of the character class `class`.
pub fn class_contains(class: &[char], c: char) -> (r: bool)
    ensures
        r == in_class(class@, c),
{
    let n = class.len();
    let mut i: usize = 0;
    loop
        invariant
            0 <= i <= n,
            n == class@.len(),
            forall|j: int| 0 <= j < i ==> class@[j] != c,
        ensures
            (i < n && class@[i as int] == c) || (i == n && forall|j: int|
                0 <= j < n ==> class@[j] != c),
        decreases n - i,
    {
        if i == n {
            break ;
        }
        if *slice_index_get(class, i) == c {
            break ;
        }
        i += 1;
    }
    if i < n {
        assert(in_class(class@, c)) by {
            assert(class@[i as int] == c);
        }
        true
    } else {
        assert(!in_class(class@, c));
        false
    }
}

/// Trims every character of `splits` from both ends of `input`.  The router
/// and binder apply this before every classification decision.
pub fn trim_chars<'a>(input: &'a [char], splits: &[char]) -> (out: &'a [char])
    ensures
        out@ == trim_spec(input@, splits@),
{
    let len = input.len();
    let mut lo: usize = 0;
    loop
        invariant
            0 <= lo <= len,
            len == input@.len(),
            forall|j: int| 0 <= j < lo ==> in_class(splits@, input@[j]),
        ensures
            0 <= lo <= len,
            len == input@.len(),
            forall|j: int| 0 <= j < lo ==> in_class(splits@, input@[j]),
            lo < len ==> !in_class(splits@, input@[lo as int]),
        decreases len - lo,
    {
        if lo == len {
            break ;
        }
        if !class_contains(splits, *slice_index_get(input, lo)) {
            break ;
        }
        lo += 1;
    }
    let mut hi: usize = len;
    loop
        invariant
            lo <= hi <= len,
            len == input@.len(),
            forall|j: int| hi <= j < len ==> in_class(splits@, input@[j]),
        ensures
            lo <= hi <= len,
            forall|j: int| hi <= j < len ==> in_class(splits@, input@[j]),
            hi > lo ==> !in_class(splits@, input@[hi - 1]),
        decreases hi,
    {
        if hi == lo {
            break ;
        }
        if !class_contains(splits, *slice_index_get(input, hi - 1)) {
            break ;
        }
        hi -= 1;
    }
    proof {
        lemma_trim_start_at(input@, splits@, lo as int);
        let t = input@.skip(lo as int);
        assert forall|j: int| hi - lo <= j < t.len() implies in_class(splits@, t[j]) by {
            assert(t[j] == input@[j + lo]);
        }
        assert(hi - lo > 0 ==> !in_class(splits@, t[hi - lo - 1])) by {
            if hi - lo > 0 {
                assert(t[hi - lo - 1] == input@[hi - 1]);
            }
        }
        lemma_trim_end_at(t, splits@, hi - lo as int);
        assert(t.take(hi - lo as int) =~= input@.subrange(lo as int, hi as int));
    }
    slice_subrange(input, lo, hi)
}

/// Splits a trimmed, non-empty cursor at the first class character: the
/// token before it, and the re-trimmed remainder behind it.  Returns `None`
/// when the cursor holds no token at all.
pub fn next_token<'a>(cursor: &'a [char], class: &[char]) -> (r: Option<(&'a [char], &'a [char])>)
    ensures
        (match r {
            None => trim_spec(cursor@, class@).len() == 0,
            Some((tok, rest)) => {
                let t = trim_spec(cursor@, class@);
                &&& t.len() > 0
                &&& tok@ == head_tok(t, class@)
                &&& opt_of(rest@) == token_rest(t, class@)
            },
        }),
{
    let t = trim_chars(cursor, class);
    let len = t.len();
    if len == 0 {
        return None;
    }
    let mut k: usize = 0;
    loop
        invariant
            0 <= k <= len,
            len == t@.len(),
            forall|j: int| 0 <= j < k ==> !in_class(class@, t@[j]),
        ensures
            0 <= k <= len,
            len == t@.len(),
            forall|j: int| 0 <= j < k ==> !in_class(class@, t@[j]),
            k < len ==> in_class(class@, t@[k as int]),
        decreases len - k,
    {
        if k == len {
            break ;
        }
        if class_contains(class, *slice_index_get(t, k)) {
            break ;
        }
        k += 1;
    }
    proof {
        lemma_token_len_at(t@, class@, k as int);
    }
    let tok = slice_subrange(t, 0, k);
    assert(tok@ =~= head_tok(t@, class@));
    if k < len {
        let rest = trim_chars(slice_subrange(t, k + 1, len), class);
        assert(t@.subrange(k as int + 1, len as int) =~= t@.skip(k as int + 1));
        Some((tok, rest))
    } else {
        let rest = slice_subrange(t, len, len);
        assert(rest@.len() == 0);
        assert(opt_of(rest@) == token_rest(t@, class@));
        Some((tok, rest))
    }
}

/// Splits raw text at the first separator character, as the command splitter
/// uses it: the result is the pair of the remainder (starting at the
/// separator; empty when there is none) and the first piece, both relative
/// to the text trimmed of separators at its ends.
pub fn split_at_char<'a>(input_raw: &'a [char], splits: &[char]) -> (out: (&'a [char], &'a [char]))
    ensures
        out.0@ == split_residue(input_raw@, splits@),
        out.1@ == split_first(input_raw@, splits@),
{
    let t = trim_chars(input_raw, splits);
    let len = t.len();
    let mut k: usize = 0;
    loop
        invariant
            0 <= k <= len,
            len == t@.len(),
            forall|j: int| 0 <= j < k ==> !in_class(splits@, t@[j]),
        ensures
            0 <= k <= len,
            len == t@.len(),
            forall|j: int| 0 <= j < k ==> !in_class(splits@, t@[j]),
            k < len ==> in_class(splits@, t@[k as int]),
        decreases len - k,
    {
        if k == len {
            break ;
        }
        if class_contains(splits, *slice_index_get(t, k)) {
            break ;
        }
        k += 1;
    }
    proof {
        lemma_token_len_at(t@, splits@, k as int);
    }
    let first = slice_subrange(t, 0, k);
    assert(first@ =~= head_tok(t@, splits@));
    if k < len {
        let residue = slice_subrange(t, k, len);
        assert(residue@ =~= t@.skip(k as int));
        (residue, first)
    } else {
        let residue = slice_subrange(t, len, len);
        assert(residue@ =~= Seq::<char>::empty());
        (residue, first)
    }
}

/// Whether `s` begins with the literal `prefix`, compared character by
/// character (no tokenization).
pub fn starts_with(s: &[char], prefix: &[char]) -> (r: bool)
    ensures
        r == prefix@.is_prefix_of(s@),
{
    let n = prefix.len();
    if n > s.len() {
        assert(!prefix@.is_prefix_of(s@));
        return false;
    }
    let mut i: usize = 0;
    loop
        invariant
            0 <= i <= n,
            n == prefix@.len(),
            n <= s@.len(),
            forall|j: int| 0 <= j < i ==> prefix@[j] == s@[j],
        ensures
            0 <= i <= n,
            n == prefix@.len(),
            n <= s@.len(),
            forall|j: int| 0 <= j < i ==> prefix@[j] == s@[j],
            i < n ==> prefix@[i as int] != s@[i as int],
        decreases n - i,
    {
        if i == n {
            break ;
        }
        if *slice_index_get(prefix, i) != *slice_index_get(s, i) {
            break ;
        }
        i += 1;
    }
    if i == n {
        assert(prefix@ =~= s@.subrange(0, n as int));
        true
    } else {
        assert(!prefix@.is_prefix_of(s@)) by {
            if prefix@.is_prefix_of(s@) {
                assert(prefix@[i as int] == s@.subrange(0, n as int)[i as int]);
            }
        }
        false
    }
}

/// Character-wise equality of two texts.
pub fn slice_eq(a: &[char], b: &[char]) -> (r: bool)
    ensures
        r == (a@ == b@),
{
    let n = a.len();
    if n != b.len() {
        assert(a@ != b@);
        return false;
    }
    let mut i: usize = 0;
    loop
        invariant
            0 <= i <= n,
            n == a@.len(),
            n == b@.len(),
            forall|j: int| 0 <= j < i ==> a@[j] == b@[j],
        ensures
            0 <= i <= n,
            n == a@.len(),
            n == b@.len(),
            forall|j: int| 0 <= j < i ==> a@[j] == b@[j],
            i < n ==> a@[i as int] != b@[i as int],
        decreases n - i,
    {
        if i == n {
            break ;
        }
        if *slice_index_get(a, i) != *slice_index_get(b, i) {
            break ;
        }
        i += 1;
    }
    if i == n {
        assert(a@ =~= b@);
        true
    } else {
        assert(a@[i as int] != b@[i as int]);
        false
    }
}

} // verus!
