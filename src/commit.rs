//! The text rules of the commit workflow: the suggested summary, the
//! preview of a long description, and the branches offered for a merge.
use vstd::prelude::*;
use vstd::string::*;

verus! {

/// The bump kind for which the summary carries no scope.
pub open spec fn patch_word() -> Seq<char> {
    seq!['p', 'a', 't', 'c', 'h']
}

/// The suggested start of a commit summary: `kind: `, or `kind(bump): `
/// unless the bump is a patch.
pub open spec fn summary_prefix(kind: Seq<char>, bump: Seq<char>) -> Seq<char> {
    if bump == patch_word() {
        kind + seq![':', ' ']
    } else {
        kind + seq!['('] + bump + seq![')', ':', ' ']
    }
}

/// How a description is shown once entered: `<skipped>` when empty, in full
/// up to 20 characters, else its first 17 characters and `...`.
pub open spec fn preview(text: Seq<char>) -> Seq<char> {
    if text.len() == 0 {
        seq!['<', 's', 'k', 'i', 'p', 'p', 'e', 'd', '>']
    } else if text.len() <= 20 {
        text
    } else {
        text.take(17) + seq!['.', '.', '.']
    }
}

/// The names of `names`, in order, without those equal to `current`.
pub open spec fn others(names: Seq<Seq<char>>, current: Seq<char>) -> Seq<Seq<char>>
    decreases names.len(),
{
    if names.len() == 0 {
        Seq::empty()
    } else {
        let rest = others(names.drop_last(), current);
        if names.last() == current {
            rest
        } else {
            rest.push(names.last())
        }
    }
}

/// The characters of `s`.
fn chars_of(s: &str) -> (r: Vec<char>)
    ensures
        r@ == s@,
{
    let n = s.unicode_len();
    let mut r: Vec<char> = Vec::new();
    let mut i: usize = 0;
    while i < n
        invariant
            n == s@.len(),
            i <= n,
            r@ == s@.take(i as int),
        decreases n - i,
    {
        r.push(s.get_char(i));
        assert(s@.take(i as int + 1) =~= s@.take(i as int).push(s@[i as int]));
        i = i + 1;
    }
    assert(s@.take(n as int) =~= s@);
    r
}

/// Appends the first `n` characters of `s` to `out`.
fn append(out: &mut Vec<char>, s: &Vec<char>, n: usize)
    requires
        n <= s@.len(),
    ensures
        final(out)@ == old(out)@ + s@.take(n as int),
{
    let ghost start = out@;
    let mut i: usize = 0;
    while i < n
        invariant
            n <= s@.len(),
            i <= n,
            out@ == start + s@.take(i as int),
        decreases n - i,
    {
        out.push(s[i]);
        assert(s@.take(i as int + 1) =~= s@.take(i as int).push(s@[i as int]));
        assert(start + s@.take(i as int + 1) =~= (start + s@.take(i as int)).push(s@[i as int]));
        i = i + 1;
    }
}

/// Whether `a` and `b` hold the same characters.
fn same_chars(a: &Vec<char>, b: &Vec<char>) -> (r: bool)
    ensures
        r == (a@ == b@),
{
    if a.len() != b.len() {
        return false;
    }
    let mut i: usize = 0;
    while i < a.len()
        invariant
            a@.len() == b@.len(),
            i <= a@.len(),
            forall|k: int| 0 <= k < i ==> a@[k] == b@[k],
        decreases a@.len() - i,
    {
        if a[i] != b[i] {
            return false;
        }
        i = i + 1;
    }
    assert(a@ =~= b@);
    true
}

/// The suggested start of the summary for a change of kind `kind` and bump `bump`.
pub fn default_summary(kind: &str, bump: &str) -> (r: Vec<char>)
    ensures
        r@ == summary_prefix(kind@, bump@),
{
    let k = chars_of(kind);
    let b = chars_of(bump);
    let mut patch: Vec<char> = Vec::new();
    patch.push('p');
    patch.push('a');
    patch.push('t');
    patch.push('c');
    patch.push('h');
    assert(patch@ =~= patch_word());
    let mut out: Vec<char> = Vec::new();
    append(&mut out, &k, k.len());
    assert(k@.take(k@.len() as int) =~= k@);
    if same_chars(&b, &patch) {
        out.push(':');
        out.push(' ');
        assert(out@ =~= summary_prefix(kind@, bump@));
    } else {
        out.push('(');
        append(&mut out, &b, b.len());
        assert(b@.take(b@.len() as int) =~= b@);
        out.push(')');
        out.push(':');
        out.push(' ');
        assert(out@ =~= summary_prefix(kind@, bump@));
    }
    out
}

/// The preview of an entered description.
pub fn description_preview(text: &str) -> (r: Vec<char>)
    ensures
        r@ == preview(text@),
{
    let t = chars_of(text);
    let mut out: Vec<char> = Vec::new();
    if t.len() == 0 {
        out.push('<');
        out.push('s');
        out.push('k');
        out.push('i');
        out.push('p');
        out.push('p');
        out.push('e');
        out.push('d');
        out.push('>');
        assert(out@ =~= preview(text@));
    } else if t.len() <= 20 {
        append(&mut out, &t, t.len());
        assert(out@ =~= preview(text@));
    } else {
        append(&mut out, &t, 17);
        out.push('.');
        out.push('.');
        out.push('.');
        assert(out@ =~= preview(text@));
    }
    out
}

/// The local branches that a change made on `current` can be merged into:
/// all of `names` but `current`, in their order.
pub fn other_branches(names: &Vec<String>, current: &String) -> (r: Vec<String>)
    ensures
        r@.map_values(|s: String| s@) == others(names@.map_values(|s: String| s@), current@),
{
    let ghost all = names@.map_values(|s: String| s@);
    let mut r: Vec<String> = Vec::new();
    let mut i: usize = 0;
    while i < names.len()
        invariant
            i <= names@.len(),
            all == names@.map_values(|s: String| s@),
            r@.map_values(|s: String| s@) == others(all.take(i as int), current@),
        decreases names@.len() - i,
    {
        assert(all.take(i as int + 1).drop_last() =~= all.take(i as int));
        let name = names[i].clone();
        if name != *current {
            r.push(name);
            assert(r@.map_values(|s: String| s@) =~= others(all.take(i as int), current@).push(all[i as int]));
        }
        i = i + 1;
    }
    assert(all.take(names@.len() as int) =~= all);
    r
}

} // verus!
