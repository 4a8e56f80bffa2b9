//! Text helpers: views of optional strings, prefixes, splitting, ordering and padding.

use vstd::prelude::*;

verus! {

/// `String::push` appends one character to the end of the string.
pub assume_specification[ String::push ](s: &mut String, c: char)
    ensures
        final(s)@ == old(s)@.push(c),
;

/// The characters of an optional string.
pub open spec fn opt_view(s: Option<String>) -> Option<Seq<char>> {
    match s {
        Some(text) => Some(text@),
        None => None,
    }
}

/// A copy of an optional string.
pub fn clone_opt(s: &Option<String>) -> (r: Option<String>)
    ensures
        opt_view(r) == opt_view(*s),
{
    match s {
        Some(text) => Some(text.clone()),
        None => None,
    }
}

/// Whether two optional strings hold the same characters.
pub fn opt_same(a: &Option<String>, b: &Option<String>) -> (r: bool)
    ensures
        r == (opt_view(*a) == opt_view(*b)),
{
    match (a, b) {
        (Some(x), Some(y)) => *x == *y,
        (None, None) => true,
        _ => false,
    }
}

/// The characters of `s`, one per element.
pub fn chars_of(s: &str) -> (v: Vec<char>)
    ensures
        v@ == s@,
{
    let mut v: Vec<char> = Vec::new();
    for c in it: s.chars()
        invariant
            it.seq() == s@,
            v@ == s@.take(it.index()),
    {
        v.push(c);
    }
    assert(s@.take(s@.len() as int) == s@);
    v
}

/// Whether `s` begins with `prefix`.
pub fn begins_with(s: &str, prefix: &str) -> (r: bool)
    ensures
        r == prefix@.is_prefix_of(s@),
{
    let whole = chars_of(s);
    let head = chars_of(prefix);
    if head.len() > whole.len() {
        return false;
    }
    let mut i: usize = 0;
    while i < head.len()
        invariant
            i <= head@.len() <= whole@.len(),
            head@ == prefix@,
            whole@ == s@,
            head@.take(i as int) == whole@.take(i as int),
        decreases head@.len() - i,
    {
        if head[i] != whole[i] {
            assert(prefix@[i as int] != s@.take(prefix@.len() as int)[i as int]);
            return false;
        }
        assert(head@.take(i + 1) == head@.take(i as int).push(head@[i as int]));
        assert(whole@.take(i + 1) == whole@.take(i as int).push(whole@[i as int]));
        i = i + 1;
    }
    assert(head@.take(head@.len() as int) == head@);
    true
}

/// `a` comes before `b` when, at the first place where they part, `a` has ended or has the
/// smaller code point.
pub open spec fn text_before(a: Seq<char>, b: Seq<char>) -> bool {
    exists|k: int| parts_at(a, b, k)
}

/// `a` and `b` agree on their first `k` characters, and there `a` ends or has the smaller one.
pub open spec fn parts_at(a: Seq<char>, b: Seq<char>, k: int) -> bool {
    &&& 0 <= k <= a.len()
    &&& k < b.len()
    &&& forall|i: int| 0 <= i < k ==> a[i] == b[i]
    &&& k < a.len() ==> a[k] < b[k]
}

/// Whether `a` comes before `b`.
pub fn comes_before(a: &str, b: &str) -> (r: bool)
    ensures
        r == text_before(a@, b@),
{
    let left = chars_of(a);
    let right = chars_of(b);
    let mut i: usize = 0;
    while i < left.len() && i < right.len()
        invariant
            left@ == a@,
            right@ == b@,
            i <= left@.len(),
            i <= right@.len(),
            forall|j: int| 0 <= j < i ==> a@[j] == b@[j],
        decreases left@.len() - i,
    {
        if left[i] != right[i] {
            let x: char = left[i];
            let y: char = right[i];
            proof {
                if x < y {
                    assert(parts_at(a@, b@, i as int));
                } else {
                    lemma_parts_no_later(a@, b@, i as int);
                }
            }
            return x < y;
        }
        i = i + 1;
    }
    proof {
        if i < right.len() {
            assert(parts_at(a@, b@, i as int));
        } else {
            assert forall|k: int| !parts_at(a@, b@, k) by {
                if parts_at(a@, b@, k) {
                    assert(k < i);
                    assert(a@[k] == b@[k]);
                }
            }
        }
    }
    i < right.len()
}

proof fn lemma_parts_no_later(a: Seq<char>, b: Seq<char>, i: int)
    requires
        0 <= i < a.len(),
        i < b.len(),
        a[i] > b[i],
        forall|j: int| 0 <= j < i ==> a[j] == b[j],
    ensures
        !text_before(a, b),
{
    assert forall|k: int| !parts_at(a, b, k) by {
        if parts_at(a, b, k) {
            if k < i {
                assert(a[k] == b[k]);
            } else if k > i {
                assert(a[i] == b[i]);
            }
        }
    }
}

/// Of two different texts one comes before the other.
pub proof fn lemma_text_total(a: Seq<char>, b: Seq<char>)
    ensures
        a == b || text_before(a, b) || text_before(b, a),
{
    lemma_agree_or_part(a, b, 0);
}

proof fn lemma_agree_or_part(a: Seq<char>, b: Seq<char>, k: int)
    requires
        0 <= k <= a.len(),
        k <= b.len(),
        forall|i: int| 0 <= i < k ==> a[i] == b[i],
    ensures
        a == b || text_before(a, b) || text_before(b, a),
    decreases a.len() - k,
{
    if k == a.len() && k == b.len() {
        assert(a == b);
    } else if k == a.len() || (k < b.len() && a[k] < b[k]) {
        assert(parts_at(a, b, k));
    } else if k == b.len() || b[k] < a[k] {
        assert(parts_at(b, a, k));
    } else {
        lemma_agree_or_part(a, b, k + 1);
    }
}

/// What comes before does not come behind.
pub proof fn lemma_text_asymmetric(a: Seq<char>, b: Seq<char>)
    requires
        text_before(a, b),
    ensures
        !text_before(b, a),
        a != b,
{
    let k = choose|k: int| parts_at(a, b, k);
    if text_before(b, a) {
        let m = choose|m: int| parts_at(b, a, m);
        if m < k {
            assert(a[m] == b[m]);
        } else if k < m {
            assert(b[k] == a[k]);
        }
    }
}

/// What comes before something comes before all that is behind it.
pub proof fn lemma_text_transitive(a: Seq<char>, b: Seq<char>, c: Seq<char>)
    requires
        text_before(a, b),
        text_before(b, c),
    ensures
        text_before(a, c),
{
    let k = choose|k: int| parts_at(a, b, k);
    let m = choose|m: int| parts_at(b, c, m);
    if k <= m {
        if k < m {
            assert(b[k] == c[k]);
        }
        assert(parts_at(a, c, k));
    } else {
        assert(a[m] == b[m]);
        assert(parts_at(a, c, m));
    }
}

/// `s` with spaces behind it up to `width` characters.
pub open spec fn padded(s: Seq<char>, width: nat) -> Seq<char> {
    if s.len() < width {
        s + Seq::new((width - s.len()) as nat, |i: int| ' ')
    } else {
        s
    }
}

/// `s` with spaces behind it up to `width` characters.
pub fn pad_right(s: &str, width: usize) -> (r: String)
    ensures
        r@ == padded(s@, width as nat),
{
    let mut text = s.to_owned();
    let mut len: usize = s.unicode_len();
    while len < width
        invariant
            len == text@.len(),
            text@ == s@ + Seq::new((len - s@.len()) as nat, |i: int| ' '),
            s@.len() <= len,
            len <= width || len == s@.len(),
        decreases width - len,
    {
        text.push(' ');
        len = len + 1;
    }
    text
}

/// Where two texts part, the smaller character decides, whatever follows; and a text comes before
/// every longer one that begins with it.
pub proof fn law_text_order(s: Seq<char>, x: char, t: Seq<char>, y: char, u: Seq<char>)
    ensures
        x < y ==> text_before(s + seq![x] + t, s + seq![y] + u) && !text_before(
            s + seq![y] + u,
            s + seq![x] + t,
        ),
        text_before(s, s + seq![x] + t),
        !text_before(s + seq![x] + t, s),
        !text_before(s, s),
{
    let a = s + seq![x] + t;
    let b = s + seq![y] + u;
    assert(a[s.len() as int] == x);
    assert(b[s.len() as int] == y);
    if x < y {
        assert(parts_at(a, b, s.len() as int));
        lemma_text_asymmetric(a, b);
    }
    assert(parts_at(s, a, s.len() as int));
    lemma_text_asymmetric(s, a);
    if text_before(s, s) {
        lemma_text_asymmetric(s, s);
    }
}

/// Padding keeps the text at the front, puts nothing but spaces behind it, and makes it as long as
/// asked, or leaves it alone where it is longer.
pub proof fn law_padding(s: Seq<char>, width: nat)
    ensures
        padded(s, width).len() == if s.len() < width { width } else { s.len() },
        padded(s, width).take(s.len() as int) == s,
        forall|i: int|
            s.len() <= i < padded(s, width).len() ==> #[trigger] padded(s, width)[i] == ' ',
{
}

/// The view of an optional string keeps whether there is one, and all its characters.
pub proof fn law_optional_text(s: Option<String>)
    ensures
        opt_view(s) is Some <==> s is Some,
        s matches Some(text) ==> opt_view(s) == Some(text@),
{
}

} // verus!
