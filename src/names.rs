//! Emitted names of linked functions.
use vstd::prelude::*;
use vstd::string::StringExecFns;
use crate::module::path_view;

verus! {

/// The name of the function where every program starts; it is emitted
/// unchanged.
pub open spec fn entry_name() -> Seq<char> {
    "\u{dac}"@
}

/// The decimal digit for `d`.
pub open spec fn digit(d: nat) -> char {
    if d == 0 { '0' } else if d == 1 { '1' } else if d == 2 { '2' } else if d == 3 { '3' }
    else if d == 4 { '4' } else if d == 5 { '5' } else if d == 6 { '6' } else if d == 7 { '7' }
    else if d == 8 { '8' } else { '9' }
}

/// The decimal representation of `n`, without sign or leading zeros.
pub open spec fn decimal(n: nat) -> Seq<char>
    decreases n,
{
    if n < 10 {
        seq![digit(n)]
    } else {
        decimal(n / 10).push(digit(n % 10))
    }
}

/// The names of `p` joined by underscores.
pub open spec fn join_path(p: Seq<Seq<char>>) -> Seq<char>
    decreases p.len(),
{
    if p.len() == 0 {
        Seq::empty()
    } else if p.len() == 1 {
        p[0]
    } else {
        join_path(p.drop_last()) + seq!['_'] + p.last()
    }
}

/// The emitted name of the item with path `p` and index `id` in the list of
/// needed items: the path joined by underscores, an underscore and the
/// index, except for the entry point.
pub open spec fn mangled(id: nat, p: Seq<Seq<char>>) -> Seq<char> {
    if p == seq![entry_name()] {
        entry_name()
    } else {
        join_path(p) + seq!['_'] + decimal(id)
    }
}

proof fn lemma_digit_injective(a: nat, b: nat)
    requires
        a < 10,
        b < 10,
        digit(a) == digit(b),
    ensures
        a == b,
{
}

proof fn lemma_decimal_len(n: nat)
    ensures
        decimal(n).len() >= 1,
        n >= 10 ==> decimal(n).len() >= 2,
    decreases n,
{
    if n >= 10 {
        lemma_decimal_len(n / 10);
    }
}

/// Distinct numbers have distinct decimal representations.
pub proof fn lemma_decimal_injective(a: nat, b: nat)
    requires
        decimal(a) == decimal(b),
    ensures
        a == b,
    decreases a,
{
    lemma_decimal_len(a);
    lemma_decimal_len(b);
    if a < 10 && b < 10 {
        assert(decimal(a) == seq![digit(a)]);
        assert(decimal(b) == seq![digit(b)]);
        assert(decimal(a)[0] == decimal(b)[0]);
        assert(seq![digit(a)][0] == digit(a));
        assert(seq![digit(b)][0] == digit(b));
        lemma_digit_injective(a, b);
    } else if a >= 10 && b >= 10 {
        let da = decimal(a);
        let db = decimal(b);
        assert(da.last() == db.last());
        lemma_digit_injective(a % 10, b % 10);
        assert(da.drop_last() == decimal(a / 10));
        assert(db.drop_last() == decimal(b / 10));
        lemma_decimal_injective(a / 10, b / 10);
    } else {
        assert(decimal(a).len() != decimal(b).len());
    }
}

/// A decimal representation holds no underscore.
pub proof fn lemma_decimal_no_underscore(n: nat)
    ensures
        !decimal(n).contains('_'),
    decreases n,
{
    if n >= 10 {
        lemma_decimal_no_underscore(n / 10);
        assert(decimal(n) == decimal(n / 10).push(digit(n % 10)));
        assert forall|i: int| 0 <= i < decimal(n).len() implies decimal(n)[i] != '_' by {
            if i < decimal(n / 10).len() {
                assert(decimal(n)[i] == decimal(n / 10)[i]);
            }
        }
    }
}

/// When two sequences end in an underscore followed by underscore-free
/// tails, equal sequences have equal tails.
proof fn lemma_tail_after_underscore(x: Seq<char>, d1: Seq<char>, y: Seq<char>, d2: Seq<char>)
    requires
        x + seq!['_'] + d1 == y + seq!['_'] + d2,
        !d1.contains('_'),
        !d2.contains('_'),
    ensures
        d1 == d2,
{
    let s = x + seq!['_'] + d1;
    let t = y + seq!['_'] + d2;
    assert(seq!['_'].len() == 1);
    assert(s.len() == x.len() + 1 + d1.len());
    assert(t.len() == y.len() + 1 + d2.len());
    if d1.len() < d2.len() {
        let k = s.len() - d1.len() - 1;
        assert(s[k] == '_');
        assert(t[k] == d2[k - y.len() - 1]);
    } else if d2.len() < d1.len() {
        let k = t.len() - d2.len() - 1;
        assert(t[k] == '_');
        assert(s[k] == d1[k - x.len() - 1]);
    } else {
        assert(s.len() == t.len());
        assert(x.len() == y.len());
        assert forall|i: int| 0 <= i < d1.len() implies d1[i] == d2[i] by {
            assert(s[x.len() + 1 + i] == t[x.len() + 1 + i]);
            assert(s[x.len() + 1 + i] == d1[i]);
            assert(t[y.len() + 1 + i] == d2[i]);
        }
        assert(d1 =~= d2);
    }
}

/// Items with distinct paths, or with distinct indices where neither is
/// the entry point, get distinct names.
pub proof fn lemma_mangled_distinct(i: nat, p: Seq<Seq<char>>, j: nat, q: Seq<Seq<char>>)
    requires
        i != j,
        p != q,
    ensures
        mangled(i, p) != mangled(j, q),
{
    reveal_strlit("\u{dac}");
    lemma_decimal_no_underscore(i);
    lemma_decimal_no_underscore(j);
    let e = entry_name();
    if p == seq![e] && q != seq![e] {
        let t = join_path(q) + seq!['_'] + decimal(j);
        assert(t[join_path(q).len() as int] == '_');
        if t == e {
            assert(t.len() >= join_path(q).len() + 2) by { lemma_decimal_len(j); }
        }
    } else if q == seq![e] && p != seq![e] {
        let s = join_path(p) + seq!['_'] + decimal(i);
        assert(s[join_path(p).len() as int] == '_');
        if s == e {
            assert(s.len() >= join_path(p).len() + 2) by { lemma_decimal_len(i); }
        }
    } else if p != seq![e] && q != seq![e] {
        if mangled(i, p) == mangled(j, q) {
            lemma_tail_after_underscore(join_path(p), decimal(i), join_path(q), decimal(j));
            lemma_decimal_injective(i, j);
        }
    }
}

/// The digit `d` as a one-character string.
fn digit_str(d: usize) -> (r: &'static str)
    requires
        d < 10,
    ensures
        r@ == seq![digit(d as nat)],
{
    proof {
        reveal_strlit("0"); reveal_strlit("1"); reveal_strlit("2"); reveal_strlit("3");
        reveal_strlit("4"); reveal_strlit("5"); reveal_strlit("6"); reveal_strlit("7");
        reveal_strlit("8"); reveal_strlit("9");
    }
    let r = if d == 0 { "0" } else if d == 1 { "1" } else if d == 2 { "2" } else if d == 3 { "3" }
        else if d == 4 { "4" } else if d == 5 { "5" } else if d == 6 { "6" } else if d == 7 { "7" }
        else if d == 8 { "8" } else { "9" };
    assert(r@ =~= seq![digit(d as nat)]);
    r
}

/// The decimal representation of `n`.
pub fn decimal_string(n: usize) -> (r: String)
    ensures
        r@ == decimal(n as nat),
    decreases n,
{
    if n < 10 {
        String::from_str(digit_str(n))
    } else {
        let mut s = decimal_string(n / 10);
        s.append(digit_str(n % 10));
        assert(s@ =~= decimal(n as nat));
        s
    }
}

/// The names of `p` joined by underscores.
pub fn join_names(p: &Vec<String>) -> (r: String)
    ensures
        r@ == join_path(path_view(p@)),
{
    let mut out = String::new();
    let mut i: usize = 0;
    while i < p.len()
        invariant
            i <= p@.len(),
            out@ == join_path(path_view(p@).subrange(0, i as int)),
        decreases p@.len() - i,
    {
        let ghost pre = path_view(p@).subrange(0, i + 1);
        assert(pre.drop_last() =~= path_view(p@).subrange(0, i as int));
        if i > 0 {
            out.append("_");
            proof { reveal_strlit("_"); }
        } else {
            assert(path_view(p@).subrange(0, 0) =~= Seq::<Seq<char>>::empty());
        }
        out.append(p[i].as_str());
        assert(out@ =~= join_path(pre));
        i = i + 1;
    }
    assert(path_view(p@).subrange(0, i as int) =~= path_view(p@));
    out
}

/// Whether `p` is the one-segment path of the entry point.
fn is_entry(p: &Vec<String>) -> (r: bool)
    ensures
        r == (path_view(p@) == seq![entry_name()]),
{
    if p.len() != 1 {
        proof {
            if path_view(p@) == seq![entry_name()] {
                assert(path_view(p@).len() == 1);
            }
        }
        return false;
    }
    let r = crate::text::is_named(&p[0], "\u{dac}");
    proof {
        if r {
            assert(path_view(p@) =~= seq![entry_name()]);
        } else if path_view(p@) == seq![entry_name()] {
            assert(path_view(p@)[0] == p@[0]@);
        }
    }
    r
}

/// The emitted name of the needed item at index `id` with path `path`.
pub fn mangle_name(id: usize, path: &Vec<String>) -> (r: String)
    ensures
        r@ == mangled(id as nat, path_view(path@)),
{
    if is_entry(path) {
        String::from_str("\u{dac}")
    } else {
        let mut s = join_names(path);
        s.append("_");
        proof { reveal_strlit("_"); }
        let d = decimal_string(id);
        s.append(d.as_str());
        s
    }
}

} // verus!
