//! The crates whose functions are extracted: a comma-separated list of crate
//! names, and the test of a crate against it.

use vstd::prelude::*;
use crate::results::texts;
use crate::text::{chars_of, is_white, push_char, white};

verus! {

/// `s` cut at every comma: `n` commas give `n + 1` pieces.
pub open spec fn split_commas(s: Seq<char>) -> Seq<Seq<char>>
    decreases s.len(),
{
    if s.len() == 0 {
        seq![Seq::empty()]
    } else {
        let p = split_commas(s.drop_last());
        if s.last() == ',' {
            p.push(Seq::empty())
        } else {
            p.update(p.len() - 1, p.last().push(s.last()))
        }
    }
}

/// `t` without the white space at its start.
pub open spec fn trim_start(t: Seq<char>) -> Seq<char>
    decreases t.len(),
{
    if t.len() > 0 && is_white(t[0]) {
        trim_start(t.drop_first())
    } else {
        t
    }
}

/// `t` without the white space at its end.
pub open spec fn trim_end(t: Seq<char>) -> Seq<char>
    decreases t.len(),
{
    if t.len() > 0 && is_white(t.last()) {
        trim_end(t.drop_last())
    } else {
        t
    }
}

/// `t` without the white space at either end.
pub open spec fn trimmed(t: Seq<char>) -> Seq<char> {
    trim_end(trim_start(t))
}

/// The crate names that a comma-separated list gives: each piece with the
/// white space around it removed (empty pieces stay, as empty names).
pub open spec fn crate_list(s: Seq<char>) -> Seq<Seq<char>> {
    split_commas(s).map_values(|p: Seq<char>| trimmed(p))
}

/// A crate is extracted when the list is empty or names it.
pub open spec fn selects(crates: Seq<Seq<char>>, name: Seq<char>) -> bool {
    crates.len() == 0 || crates.contains(name)
}

/// Cutting at commas gives at least one piece.
proof fn lemma_split_nonempty(s: Seq<char>)
    ensures
        split_commas(s).len() >= 1,
    decreases s.len(),
{
    if s.len() > 0 {
        lemma_split_nonempty(s.drop_last());
    }
}

/// Skipping `a` leading white-space characters, up to one that is not,
/// trims the start.
proof fn lemma_trim_start(t: Seq<char>, a: int)
    requires
        0 <= a <= t.len(),
        forall|i: int| 0 <= i < a ==> is_white(#[trigger] t[i]),
        a == t.len() || !is_white(t[a]),
    ensures
        trim_start(t) == t.subrange(a, t.len() as int),
    decreases a,
{
    if a == 0 {
        assert(t.subrange(0, t.len() as int) == t);
    } else {
        assert(is_white(t[0]));
        let d = t.drop_first();
        assert forall|i: int| 0 <= i < a - 1 implies is_white(#[trigger] d[i]) by {
            assert(d[i] == t[i + 1]);
        }
        if a < t.len() {
            assert(d[a - 1] == t[a]);
        }
        lemma_trim_start(d, a - 1);
        assert(d.subrange(a - 1, d.len() as int) == t.subrange(a, t.len() as int));
    }
}

/// Dropping white-space characters from the end, down to one that is not,
/// trims the end.
proof fn lemma_trim_end(t: Seq<char>, b: int)
    requires
        0 <= b <= t.len(),
        forall|i: int| b <= i < t.len() ==> is_white(#[trigger] t[i]),
        b == 0 || !is_white(t[b - 1]),
    ensures
        trim_end(t) == t.take(b),
    decreases t.len() - b,
{
    if b == t.len() {
        assert(t.take(b) == t);
    } else {
        assert(is_white(t.last()));
        let d = t.drop_last();
        assert forall|i: int| b <= i < d.len() implies is_white(#[trigger] d[i]) by {
            assert(d[i] == t[i]);
        }
        if b > 0 {
            assert(d[b - 1] == t[b - 1]);
        }
        lemma_trim_end(d, b);
        assert(d.take(b) == t.take(b));
    }
}

/// `chars` without the white space at either end, as a string.
fn trim_chars(chars: &Vec<char>) -> (s: String)
    ensures
        s@ == trimmed(chars@),
{
    let len = chars.len();
    let mut a: usize = 0;
    while a < len && white(chars[a])
        invariant
            a <= len,
            len == chars@.len(),
            forall|i: int| 0 <= i < a ==> is_white(#[trigger] chars@[i]),
        decreases len - a,
    {
        a += 1;
    }
    let mut b: usize = len;
    while b > a && white(chars[b - 1])
        invariant
            a <= b <= len,
            len == chars@.len(),
            forall|i: int| b <= i < len ==> is_white(#[trigger] chars@[i]),
        decreases b - a,
    {
        b -= 1;
    }
    proof {
        lemma_trim_start(chars@, a as int);
        let rest = chars@.subrange(a as int, len as int);
        assert forall|i: int| b - a <= i < rest.len() implies is_white(#[trigger] rest[i]) by {
            assert(rest[i] == chars@[a + i]);
        }
        if b > a {
            assert(rest[b - a - 1] == chars@[b - 1]);
        }
        lemma_trim_end(rest, (b - a) as int);
        assert(rest.take((b - a) as int) == chars@.subrange(a as int, b as int));
    }
    let mut s = String::new();
    let mut k: usize = a;
    while k < b
        invariant
            a <= k <= b,
            b <= len,
            len == chars@.len(),
            s@ == chars@.subrange(a as int, k as int),
        decreases b - k,
    {
        push_char(&mut s, chars[k]);
        k += 1;
        assert(s@ =~= chars@.subrange(a as int, k as int));
    }
    s
}

/// The crate names in a comma-separated list, each with the white space
/// around it removed.
pub fn parse_crate_list(list: &str) -> (crates: Vec<String>)
    ensures
        texts(crates@) == crate_list(list@),
{
    let chars = chars_of(list);
    let mut crates: Vec<String> = Vec::new();
    let mut piece: Vec<char> = Vec::new();
    let ghost mut done: Seq<Seq<char>> = Seq::empty();
    let mut i: usize = 0;
    while i < chars.len()
        invariant
            i <= chars@.len(),
            chars@ == list@,
            split_commas(chars@.take(i as int)) == done.push(piece@),
            texts(crates@) == done.map_values(|p: Seq<char>| trimmed(p)),
        decreases chars@.len() - i,
    {
        let c = chars[i];
        proof {
            assert(chars@.take(i + 1).drop_last() == chars@.take(i as int));
            assert(chars@.take(i + 1).last() == c);
        }
        if c == ',' {
            let name = trim_chars(&piece);
            let ghost before = crates@;
            let ghost text = name@;
            crates.push(name);
            proof {
                assert(texts(crates@) =~= texts(before).push(text));
                assert(texts(crates@) =~= done.push(piece@).map_values(|p: Seq<char>| trimmed(p)));
                done = done.push(piece@);
            }
            piece = Vec::new();
            proof {
                assert(split_commas(chars@.take(i + 1)) =~= done.push(piece@));
            }
        } else {
            let ghost old_piece = piece@;
            piece.push(c);
            proof {
                let p = done.push(old_piece);
                assert(p.update(p.len() - 1, old_piece.push(c)) =~= done.push(piece@));
            }
        }
        i += 1;
    }
    let name = trim_chars(&piece);
    let ghost before = crates@;
    let ghost text = name@;
    crates.push(name);
    proof {
        assert(chars@.take(chars@.len() as int) == chars@);
        assert(texts(crates@) =~= texts(before).push(text));
        assert(texts(crates@) =~= done.push(piece@).map_values(|p: Seq<char>| trimmed(p)));
    }
    crates
}

/// Whether two texts are the same.
fn same_text(a: &str, b: &str) -> (same: bool)
    ensures
        same == (a@ == b@),
{
    let x = chars_of(a);
    let y = chars_of(b);
    if x.len() != y.len() {
        return false;
    }
    let mut i: usize = 0;
    while i < x.len()
        invariant
            i <= x@.len(),
            x@ == a@,
            y@ == b@,
            x@.len() == y@.len(),
            forall|j: int| 0 <= j < i ==> x@[j] == y@[j],
        decreases x@.len() - i,
    {
        if x[i] != y[i] {
            assert(x@[i as int] != y@[i as int]);
            return false;
        }
        i += 1;
    }
    assert(x@ =~= y@);
    true
}

/// Whether the functions of crate `name` are extracted: an empty list lets
/// every crate through, otherwise the list must name it.
pub fn crate_selected(crates: &Vec<String>, name: &str) -> (selected: bool)
    ensures
        selected == selects(texts(crates@), name@),
{
    if crates.len() == 0 {
        return true;
    }
    let mut i: usize = 0;
    while i < crates.len()
        invariant
            i <= crates@.len(),
            forall|j: int| 0 <= j < i ==> crates@[j]@ != name@,
        decreases crates@.len() - i,
    {
        if same_text(crates[i].as_str(), name) {
            assert(texts(crates@)[i as int] == name@);
            return true;
        }
        i += 1;
    }
    assert(!texts(crates@).contains(name@)) by {
        if texts(crates@).contains(name@) {
            let j = choose|j: int| 0 <= j < texts(crates@).len() && texts(crates@)[j] == name@;
            assert(crates@[j]@ == name@);
        }
    }
    false
}

} // verus!
