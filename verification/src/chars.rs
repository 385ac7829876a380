//! Character-level helpers: whitespace, searching and splitting on `Vec<char>`.
use vstd::prelude::*;

verus! {

/// The Unicode `White_Space` property, which `char::is_whitespace` tests.
pub open spec fn is_white(c: char) -> bool {
    let u = c as u32;
    ||| 0x09 <= u <= 0x0D
    ||| u == 0x20
    ||| u == 0x85
    ||| u == 0xA0
    ||| u == 0x1680
    ||| 0x2000 <= u <= 0x200A
    ||| u == 0x2028
    ||| u == 0x2029
    ||| u == 0x202F
    ||| u == 0x205F
    ||| u == 0x3000
}

/// Whether `c` is Unicode whitespace (`char::is_whitespace`).
pub fn is_white_char(c: char) -> (r: bool)
    ensures
        r == is_white(c),
{
    let u = c as u32;
    (0x09 <= u && u <= 0x0D) || u == 0x20 || u == 0x85 || u == 0xA0 || u == 0x1680 || (0x2000
        <= u && u <= 0x200A) || u == 0x2028 || u == 0x2029 || u == 0x202F || u == 0x205F || u
        == 0x3000
}

} // verus!

verus! {

/// `String::push`: appends one character.
#[verifier::external_body]
fn string_push(s: &mut String, c: char)
    ensures
        final(s)@ == old(s)@.push(c),
{
    s.push(c);
}

/// The characters of `s`, in order.
pub fn to_chars(s: &str) -> (v: Vec<char>)
    ensures
        v@ == s@,
{
    let mut v: Vec<char> = Vec::new();
    for c in it: s.chars()
        invariant
            v@ == it.seq().take(it.index() as int),
    {
        v.push(c);
    }
    v
}

/// The string made of the characters of `v`.
pub fn from_chars(v: &Vec<char>) -> (s: String)
    ensures
        s@ == v@,
{
    let mut s = String::new();
    let mut i: usize = 0;
    while i < v.len()
        invariant
            i <= v.len(),
            s@ == v@.take(i as int),
        decreases v.len() - i,
    {
        string_push(&mut s, v[i]);
        assert(v@.take(i + 1) =~= v@.take(i as int).push(v@[i as int]));
        i += 1;
    }
    assert(v@.take(v.len() as int) =~= v@);
    s
}

} // verus!

verus! {

/// The whitespace-separated words of `s` (what `str::split_whitespace`
/// yields), defined by reading `s` from the left one character at a time.
pub open spec fn words(s: Seq<char>) -> Seq<Seq<char>>
    decreases s.len(),
{
    if s.len() == 0 {
        seq![]
    } else {
        let prev = words(s.drop_last());
        let c = s.last();
        if is_white(c) {
            prev
        } else if s.len() >= 2 && !is_white(s[s.len() - 2]) {
            prev.drop_last().push(prev.last().push(c))
        } else {
            prev.push(seq![c])
        }
    }
}

/// `ws` joined with `sep` between consecutive items (what `join` does).
pub open spec fn join(ws: Seq<Seq<char>>, sep: Seq<char>) -> Seq<char>
    decreases ws.len(),
{
    if ws.len() == 0 {
        seq![]
    } else if ws.len() == 1 {
        ws[0]
    } else {
        join(ws.drop_last(), sep) + sep + ws.last()
    }
}

/// The first `n` items of `s`, or all of them when there are fewer.
pub open spec fn prefix<T>(s: Seq<T>, n: int) -> Seq<T> {
    if n < s.len() {
        s.take(n)
    } else {
        s
    }
}

/// The views of a sequence of character vectors.
pub open spec fn views(v: Seq<Vec<char>>) -> Seq<Seq<char>> {
    v.map_values(|w: Vec<char>| w@)
}

/// The words of `s` joined by single spaces.
pub open spec fn squash(s: Seq<char>) -> Seq<char> {
    join(words(s), seq![' '])
}

proof fn lemma_words_nonempty(s: Seq<char>)
    requires
        s.len() > 0,
        !is_white(s.last()),
    ensures
        words(s).len() > 0,
    decreases s.len(),
{
    if s.len() >= 2 && !is_white(s[s.len() - 2]) {
        assert(s.drop_last().last() == s[s.len() - 2]);
        lemma_words_nonempty(s.drop_last());
    }
}

/// Joining one more item appends the separator and the item.
pub proof fn lemma_join_push(ws: Seq<Seq<char>>, w: Seq<char>, sep: Seq<char>)
    ensures
        join(ws.push(w), sep) == if ws.len() == 0 {
            w
        } else {
            join(ws, sep) + sep + w
        },
{
    assert(ws.push(w).drop_last() =~= ws);
    if ws.len() == 0 {
        assert(ws.push(w)[0] == w);
    }
}

/// Pushes every character of `s` onto `out`.
pub fn push_all(out: &mut Vec<char>, s: &Vec<char>)
    ensures
        final(out)@ == old(out)@ + s@,
{
    let mut i: usize = 0;
    while i < s.len()
        invariant
            i <= s.len(),
            out@ == old(out)@ + s@.take(i as int),
        decreases s.len() - i,
    {
        out.push(s[i]);
        assert(s@.take(i + 1) =~= s@.take(i as int).push(s@[i as int]));
        i += 1;
    }
    assert(s@.take(s.len() as int) =~= s@);
}

/// The whitespace-separated words of `s`.
pub fn split_words(s: &Vec<char>) -> (ws: Vec<Vec<char>>)
    ensures
        views(ws@) == words(s@),
{
    let mut ws: Vec<Vec<char>> = Vec::new();
    let mut i: usize = 0;
    while i < s.len()
        invariant
            i <= s.len(),
            views(ws@) == words(s@.take(i as int)),
        decreases s.len() - i,
    {
        let c = s[i];
        let ghost pre = s@.take(i as int);
        let ghost next = s@.take(i + 1);
        assert(next.drop_last() =~= pre);
        assert(next.last() == c);
        if is_white_char(c) {
        } else if i > 0 && !is_white_char(s[i - 1]) {
            assert(pre.last() == s@[i - 1]);
            proof {
                lemma_words_nonempty(pre);
            }
            assert(next[next.len() - 2] == s@[i - 1]);
            let mut last = ws.pop().unwrap();
            last.push(c);
            ws.push(last);
            assert(views(ws@) =~= words(pre).drop_last().push(words(pre).last().push(c)));
        } else {
            if i > 0 {
                assert(next[next.len() - 2] == s@[i - 1]);
            }
            let mut w: Vec<char> = Vec::new();
            w.push(c);
            ws.push(w);
            assert(views(ws@) =~= words(pre).push(seq![c]));
        }
        i += 1;
    }
    assert(s@.take(s.len() as int) =~= s@);
    ws
}

/// The items of `ws` joined with `sep` between consecutive ones.
pub fn join_words(ws: &Vec<Vec<char>>, sep: char) -> (out: Vec<char>)
    ensures
        out@ == join(views(ws@), seq![sep]),
{
    let mut out: Vec<char> = Vec::new();
    let mut i: usize = 0;
    while i < ws.len()
        invariant
            i <= ws.len(),
            out@ == join(views(ws@).take(i as int), seq![sep]),
        decreases ws.len() - i,
    {
        let ghost done = views(ws@).take(i as int);
        proof {
            lemma_join_push(done, ws@[i as int]@, seq![sep]);
        }
        assert(views(ws@).take(i + 1) =~= done.push(ws@[i as int]@));
        if i > 0 {
            out.push(sep);
        }
        push_all(&mut out, &ws[i]);
        assert(out@ =~= join(views(ws@).take(i + 1), seq![sep]));
        i += 1;
    }
    assert(views(ws@).take(ws.len() as int) =~= views(ws@));
    out
}

} // verus!

verus! {

/// `p` occurs in `s` starting at index `i`.
pub open spec fn occurs_at(s: Seq<char>, p: Seq<char>, i: int) -> bool {
    0 <= i && i + p.len() <= s.len() && s.subrange(i, i + p.len()) == p
}

/// `p` occurs somewhere in `s` (what `str::contains` tests).
pub open spec fn infix(s: Seq<char>, p: Seq<char>) -> bool {
    exists|i: int| occurs_at(s, p, i)
}

/// `s` begins with `p`.
pub open spec fn begins(s: Seq<char>, p: Seq<char>) -> bool {
    occurs_at(s, p, 0)
}

/// The index of the first occurrence of `p` in `s` (what `str::find` gives).
#[verifier::opaque]
pub open spec fn first_at(s: Seq<char>, p: Seq<char>) -> Option<int> {
    if infix(s, p) {
        Some(
            choose|i: int|
                #![trigger occurs_at(s, p, i)]
                occurs_at(s, p, i) && forall|j: int| 0 <= j < i ==> !occurs_at(s, p, j),
        )
    } else {
        None
    }
}

/// The index of the last occurrence of `p` in `s` (what `str::rfind` gives).
#[verifier::opaque]
pub open spec fn last_at(s: Seq<char>, p: Seq<char>) -> Option<int> {
    if infix(s, p) {
        Some(
            choose|i: int|
                #![trigger occurs_at(s, p, i)]
                occurs_at(s, p, i) && forall|j: int| i < j ==> !occurs_at(s, p, j),
        )
    } else {
        None
    }
}

/// An optional index as an integer.
pub open spec fn as_int(o: Option<usize>) -> Option<int> {
    match o {
        Some(i) => Some(i as int),
        None => None,
    }
}

/// An occurrence with none before it is the first.
pub proof fn lemma_first_at(s: Seq<char>, p: Seq<char>, i: int)
    requires
        occurs_at(s, p, i),
        forall|j: int| 0 <= j < i ==> !occurs_at(s, p, j),
    ensures
        first_at(s, p) == Some(i),
{
    reveal(first_at);
    let k = choose|k: int|
        #![trigger occurs_at(s, p, k)]
        occurs_at(s, p, k) && forall|j: int| 0 <= j < k ==> !occurs_at(s, p, j);
    assert(occurs_at(s, p, k));
    if k < i {
        assert(!occurs_at(s, p, k));
    } else if k > i {
        assert(!occurs_at(s, p, i));
    }
}

/// An occurrence with none after it is the last.
pub proof fn lemma_last_at(s: Seq<char>, p: Seq<char>, i: int)
    requires
        occurs_at(s, p, i),
        forall|j: int| i < j ==> !occurs_at(s, p, j),
    ensures
        last_at(s, p) == Some(i),
{
    reveal(last_at);
    let k = choose|k: int|
        #![trigger occurs_at(s, p, k)]
        occurs_at(s, p, k) && forall|j: int| k < j ==> !occurs_at(s, p, j);
    assert(occurs_at(s, p, k));
    if k < i {
        assert(!occurs_at(s, p, i));
    } else if k > i {
        assert(!occurs_at(s, p, k));
    }
}

/// Whether `p` occurs in `s` at index `i`.
pub fn occurs(s: &Vec<char>, p: &Vec<char>, i: usize) -> (r: bool)
    ensures
        r == occurs_at(s@, p@, i as int),
{
    if i > s.len() || p.len() > s.len() - i {
        return false;
    }
    let mut k: usize = 0;
    while k < p.len()
        invariant
            i + p.len() <= s.len(),
            k <= p.len(),
            forall|j: int| 0 <= j < k ==> s@[i + j] == p@[j],
        decreases p.len() - k,
    {
        if s[i + k] != p[k] {
            assert(s@.subrange(i as int, i + p.len())[k as int] != p@[k as int]);
            return false;
        }
        k += 1;
    }
    assert(s@.subrange(i as int, i + p.len()) =~= p@);
    true
}

/// The index of the first occurrence of `p` in `s` at or after `from`.
pub fn find_from(s: &Vec<char>, p: &Vec<char>, from: usize) -> (r: Option<usize>)
    ensures
        match r {
            Some(i) => from <= i && occurs_at(s@, p@, i as int) && forall|j: int|
                from <= j < i ==> !occurs_at(s@, p@, j),
            None => forall|j: int| from <= j ==> !occurs_at(s@, p@, j),
        },
{
    let mut i: usize = from;
    while i < s.len()
        invariant
            from <= i,
            forall|j: int| from <= j < i ==> !occurs_at(s@, p@, j),
        decreases s.len() - i,
    {
        if occurs(s, p, i) {
            return Some(i);
        }
        i += 1;
    }
    if i == s.len() && occurs(s, p, i) {
        return Some(i);
    }
    None
}

/// The index of the first occurrence of `p` in `s`.
pub fn find(s: &Vec<char>, p: &Vec<char>) -> (r: Option<usize>)
    ensures
        as_int(r) == first_at(s@, p@),
{
    let r = find_from(s, p, 0);
    proof {
        match r {
            Some(i) => lemma_first_at(s@, p@, i as int),
            None => {
                reveal(first_at);
            },
        }
    }
    r
}

/// Whether `p` occurs anywhere in `s`.
pub fn contains(s: &Vec<char>, p: &Vec<char>) -> (r: bool)
    ensures
        r == infix(s@, p@),
{
    let r = find_from(s, p, 0);
    match r {
        Some(i) => true,
        None => {
            assert(forall|j: int| !occurs_at(s@, p@, j));
            false
        },
    }
}

/// The index of the last occurrence of `p` in `s`.
pub fn rfind(s: &Vec<char>, p: &Vec<char>) -> (r: Option<usize>)
    ensures
        as_int(r) == last_at(s@, p@),
{
    let mut i: usize = s.len();
    loop
        invariant
            i <= s.len(),
            forall|j: int| i < j ==> !occurs_at(s@, p@, j),
        decreases i,
    {
        if occurs(s, p, i) {
            proof {
                lemma_last_at(s@, p@, i as int);
            }
            return Some(i);
        }
        if i == 0 {
            assert(forall|j: int| !occurs_at(s@, p@, j));
            reveal(last_at);
            return None;
        }
        i -= 1;
    }
}

/// The characters of `s` from `a` to `b`.
pub fn slice(s: &Vec<char>, a: usize, b: usize) -> (r: Vec<char>)
    requires
        a <= b <= s.len(),
    ensures
        r@ == s@.subrange(a as int, b as int),
{
    let mut r: Vec<char> = Vec::new();
    let mut i: usize = a;
    while i < b
        invariant
            a <= i <= b <= s.len(),
            r@ == s@.subrange(a as int, i as int),
        decreases b - i,
    {
        r.push(s[i]);
        assert(s@.subrange(a as int, i + 1) =~= s@.subrange(a as int, i as int).push(s@[i as int]));
        i += 1;
    }
    r
}

} // verus!

verus! {

/// Where `p` occurs, it occurs a first time.
pub proof fn lemma_first_exists(s: Seq<char>, p: Seq<char>, w: int)
    requires
        occurs_at(s, p, w),
    ensures
        exists|i: int|
            #![trigger occurs_at(s, p, i)]
            occurs_at(s, p, i) && forall|j: int| 0 <= j < i ==> !occurs_at(s, p, j),
    decreases w,
{
    if exists|j: int| 0 <= j < w && occurs_at(s, p, j) {
        let j = choose|j: int| 0 <= j < w && occurs_at(s, p, j);
        lemma_first_exists(s, p, j);
    } else {
        assert(occurs_at(s, p, w) && forall|j: int| 0 <= j < w ==> !occurs_at(s, p, j));
    }
}

/// What `first_at` gives is the least index at which `p` occurs.
pub proof fn lemma_first_at_facts(s: Seq<char>, p: Seq<char>)
    ensures
        first_at(s, p) is None <==> !infix(s, p),
        first_at(s, p) matches Some(i) ==> occurs_at(s, p, i) && 0 <= i && i + p.len() <= s.len()
            && forall|j: int| 0 <= j < i ==> !occurs_at(s, p, j),
{
    reveal(first_at);
    if infix(s, p) {
        let w = choose|w: int| occurs_at(s, p, w);
        lemma_first_exists(s, p, w);
    }
}

/// Whether `a` and `b` hold the same characters.
pub fn same_chars(a: &Vec<char>, b: &Vec<char>) -> (r: bool)
    ensures
        r == (a@ == b@),
{
    if a.len() != b.len() {
        return false;
    }
    let mut i: usize = 0;
    while i < a.len()
        invariant
            a.len() == b.len(),
            i <= a.len(),
            forall|j: int| 0 <= j < i ==> a@[j] == b@[j],
        decreases a.len() - i,
    {
        if a[i] != b[i] {
            return false;
        }
        i += 1;
    }
    assert(a@ =~= b@);
    true
}

/// Whether `a` holds exactly the characters of the text `lit`.
pub fn is_text(a: &Vec<char>, lit: &str) -> (r: bool)
    ensures
        r == (a@ == lit@),
{
    let b = to_chars(lit);
    same_chars(a, &b)
}

/// Whether `p` occurs in `s`, for a text `p`.
pub fn has_text(s: &Vec<char>, p: &str) -> (r: bool)
    ensures
        r == infix(s@, p@),
{
    let q = to_chars(p);
    contains(s, &q)
}

/// Whether `s` begins with the text `p`.
pub fn begins_with_text(s: &Vec<char>, p: &str) -> (r: bool)
    ensures
        r == begins(s@, p@),
{
    let q = to_chars(p);
    occurs(s, &q, 0)
}

/// Whether `v` is among the items of `items`.
pub fn holds_item(items: &Vec<Vec<char>>, v: &Vec<char>) -> (r: bool)
    ensures
        r == views(items@).contains(v@),
{
    let mut i: usize = 0;
    while i < items.len()
        invariant
            i <= items.len(),
            forall|j: int| 0 <= j < i ==> items@[j]@ != v@,
        decreases items.len() - i,
    {
        if same_chars(&items[i], v) {
            assert(views(items@)[i as int] == v@);
            return true;
        }
        i += 1;
    }
    assert(!views(items@).contains(v@)) by {
        if views(items@).contains(v@) {
            let k = choose|k: int| 0 <= k < views(items@).len() && views(items@)[k] == v@;
            assert(items@[k]@ == v@);
        }
    }
    false
}

} // verus!

verus! {

/// A found occurrence lies within `s`.
pub proof fn lemma_found_bounds(s: Seq<char>, p: Seq<char>, i: int)
    requires
        first_at(s, p) == Some(i),
    ensures
        0 <= i,
        i + p.len() <= s.len(),
        occurs_at(s, p, i),
{
    lemma_first_at_facts(s, p);
}

/// The view of an optional character vector.
pub open spec fn opt_chars(o: Option<Vec<char>>) -> Option<Seq<char>> {
    match o {
        Some(v) => Some(v@),
        None => None,
    }
}

/// The view of an optional text.
pub open spec fn opt_text(o: Option<&str>) -> Option<Seq<char>> {
    match o {
        Some(s) => Some(s@),
        None => None,
    }
}

/// The view of an optional string.
pub open spec fn opt_string(o: Option<String>) -> Option<Seq<char>> {
    match o {
        Some(v) => Some(v@),
        None => None,
    }
}

} // verus!

verus! {

proof fn lemma_last_exists(s: Seq<char>, p: Seq<char>, w: int)
    requires
        occurs_at(s, p, w),
    ensures
        exists|k: int|
            #![trigger occurs_at(s, p, k)]
            occurs_at(s, p, k) && forall|j: int| k < j ==> !occurs_at(s, p, j),
    decreases s.len() - w,
{
    if exists|j: int| w < j && occurs_at(s, p, j) {
        let j = choose|j: int| w < j && occurs_at(s, p, j);
        lemma_last_exists(s, p, j);
    } else {
        assert(occurs_at(s, p, w) && forall|j: int| w < j ==> !occurs_at(s, p, j));
    }
}

/// What `last_at` gives is the greatest index at which `p` occurs.
pub proof fn lemma_last_at_facts(s: Seq<char>, p: Seq<char>)
    ensures
        last_at(s, p) is None <==> !infix(s, p),
        last_at(s, p) matches Some(i) ==> occurs_at(s, p, i) && 0 <= i && i + p.len() <= s.len()
            && forall|j: int| i < j ==> !occurs_at(s, p, j),
{
    reveal(last_at);
    if infix(s, p) {
        let w = choose|w: int| occurs_at(s, p, w);
        lemma_last_exists(s, p, w);
    }
}

} // verus!


verus! {

/// Dropping the first character never adds a word.
proof fn lemma_words_drop_first(s: Seq<char>)
    requires
        s.len() > 0,
    ensures
        words(s.drop_first()).len() <= words(s).len(),
    decreases s.len(),
{
    let t = s.drop_first();
    if s.len() == 1 {
        assert(t.len() == 0);
    } else {
        assert(t.drop_last() =~= s.drop_last().drop_first());
        lemma_words_drop_first(s.drop_last());
        assert(t.last() == s.last());
        if t.len() >= 2 {
            assert(t[t.len() - 2] == s[s.len() - 2]);
        }
        if s.len() == 2 && !is_white(s.last()) && !is_white(s[0]) {
            assert(t.drop_last().len() == 0);
            assert(words(t.drop_last()).len() == 0);
            assert(s.drop_last().len() == 1);
            assert(s.drop_last().drop_last().len() == 0);
            assert(words(s.drop_last().drop_last()) =~= Seq::<Seq<char>>::empty());
            assert(s.drop_last().last() == s[0]);
            assert(words(s.drop_last()).len() == 1);
        }
    }
}

/// Dropping the last character never adds a word.
proof fn lemma_words_drop_last(s: Seq<char>)
    requires
        s.len() > 0,
    ensures
        words(s.drop_last()).len() <= words(s).len(),
{
}

/// A part of `s` has no more words than `s`.
pub proof fn lemma_words_subrange(s: Seq<char>, a: int, b: int)
    requires
        0 <= a <= b <= s.len(),
    ensures
        words(s.subrange(a, b)).len() <= words(s).len(),
    decreases s.len() - (b - a),
{
    if a == 0 && b == s.len() {
        assert(s.subrange(a, b) =~= s);
    } else if a > 0 {
        let u = s.subrange(a - 1, b);
        assert(u.drop_first() =~= s.subrange(a, b));
        lemma_words_drop_first(u);
        lemma_words_subrange(s, a - 1, b);
    } else {
        let u = s.subrange(a, b + 1);
        assert(u.drop_last() =~= s.subrange(a, b));
        lemma_words_drop_last(u);
        lemma_words_subrange(s, a, b + 1);
    }
}

/// A word: not empty, and without whitespace.
pub open spec fn is_word(w: Seq<char>) -> bool {
    w.len() > 0 && forall|i: int| 0 <= i < w.len() ==> !is_white(#[trigger] w[i])
}

/// The words of `s` are words.
pub proof fn lemma_words_are_words(s: Seq<char>)
    ensures
        forall|i: int| 0 <= i < words(s).len() ==> is_word(#[trigger] words(s)[i]),
    decreases s.len(),
{
    if s.len() > 0 {
        let prev = words(s.drop_last());
        lemma_words_are_words(s.drop_last());
        let c = s.last();
        if !is_white(c) && s.len() >= 2 && !is_white(s[s.len() - 2]) {
            assert(s.drop_last().last() == s[s.len() - 2]);
            lemma_words_nonempty(s.drop_last());
            let w = prev.last().push(c);
            assert(is_word(prev[prev.len() - 1]));
            assert forall|i: int| 0 <= i < w.len() implies !is_white(#[trigger] w[i]) by {
                if i < w.len() - 1 {
                    assert(w[i] == prev[prev.len() - 1][i]);
                }
            }
            let r = words(s);
            assert forall|i: int| 0 <= i < r.len() implies is_word(#[trigger] r[i]) by {
                if i < r.len() - 1 {
                    assert(r[i] == prev[i]);
                }
            }
        } else if !is_white(c) {
            let r = words(s);
            assert(is_word(seq![c]));
            assert forall|i: int| 0 <= i < r.len() implies is_word(#[trigger] r[i]) by {
                if i < r.len() - 1 {
                    assert(r[i] == prev[i]);
                }
            }
        }
    }
}

/// The words of `a`, a space and the word `w` are those of `a`, then `w`.
proof fn lemma_words_after_space(a: Seq<char>, w: Seq<char>)
    requires
        is_word(w),
    ensures
        words(a + seq![' '] + w) == words(a).push(w),
    decreases w.len(),
{
    let s = a + seq![' '] + w;
    if w.len() == 1 {
        let sp = a + seq![' '];
        assert(s.drop_last() =~= sp);
        assert(sp.drop_last() =~= a);
        assert(is_white(' '));
        assert(sp.last() == ' ');
        assert(words(sp) == words(a));
        assert(s[s.len() - 2] == ' ');
        assert(s.last() == w[0]);
        assert(w =~= seq![w[0]]);
        assert(words(s) == words(sp).push(seq![w[0]]));
    } else {
        let v = w.drop_last();
        assert(is_word(v)) by {
            assert forall|i: int| 0 <= i < v.len() implies !is_white(#[trigger] v[i]) by {
                assert(v[i] == w[i]);
            }
        }
        lemma_words_after_space(a, v);
        assert(s.drop_last() =~= a + seq![' '] + v);
        assert(s[s.len() - 2] == w[w.len() - 2]);
        assert(!is_white(w[w.len() - 2]));
        assert(!is_white(w[w.len() - 1]));
        assert(v.push(w.last()) =~= w);
        assert(s.last() == w.last());
        let before = words(a).push(v);
        assert(words(s) == before.drop_last().push(before.last().push(w.last())));
        assert(before.drop_last().push(before.last().push(w.last())) =~= words(a).push(w));
    }
}

/// The words of a single word are that word.
pub proof fn lemma_words_of_word(w: Seq<char>)
    requires
        is_word(w),
    ensures
        words(w) == seq![w],
    decreases w.len(),
{
    if w.len() == 1 {
        assert(w.drop_last().len() == 0);
        assert(words(w.drop_last()) =~= Seq::<Seq<char>>::empty());
        assert(w =~= seq![w[0]]);
        assert(words(w) == Seq::<Seq<char>>::empty().push(seq![w[0]]));
        assert(Seq::<Seq<char>>::empty().push(seq![w[0]]) =~= seq![w]);
    } else {
        let v = w.drop_last();
        assert(is_word(v)) by {
            assert forall|i: int| 0 <= i < v.len() implies !is_white(#[trigger] v[i]) by {
                assert(v[i] == w[i]);
            }
        }
        lemma_words_of_word(v);
        assert(w[w.len() - 2] == v.last());
        assert(v.push(w.last()) =~= w);
        assert(words(w) == seq![v].drop_last().push(seq![v].last().push(w.last())));
        assert(seq![v].drop_last().push(seq![v].last().push(w.last())) =~= seq![w]);
    }
}

/// Joining words with single spaces and splitting the result again gives
/// back the same words.
pub proof fn lemma_words_of_join(ws: Seq<Seq<char>>)
    requires
        forall|i: int| 0 <= i < ws.len() ==> is_word(#[trigger] ws[i]),
    ensures
        words(join(ws, seq![' '])) == ws,
    decreases ws.len(),
{
    if ws.len() == 0 {
    } else if ws.len() == 1 {
        lemma_words_of_word(ws[0]);
        assert(seq![ws[0]] =~= ws);
    } else {
        let d = ws.drop_last();
        assert forall|i: int| 0 <= i < d.len() implies is_word(#[trigger] d[i]) by {
            assert(d[i] == ws[i]);
        }
        lemma_words_of_join(d);
        lemma_words_after_space(join(d, seq![' ']), ws.last());
        assert(d.push(ws.last()) =~= ws);
    }
}


/// The words of each of `ws`, one after the other.
pub open spec fn words_of_all(ws: Seq<Seq<char>>) -> Seq<Seq<char>>
    decreases ws.len(),
{
    if ws.len() == 0 {
        seq![]
    } else {
        words_of_all(ws.drop_last()) + words(ws.last())
    }
}

/// Text that ends in whitespace, or none, keeps its words apart from what
/// follows it.
pub proof fn lemma_words_concat(a: Seq<char>, b: Seq<char>)
    requires
        a.len() == 0 || is_white(a.last()),
    ensures
        words(a + b) == words(a) + words(b),
    decreases b.len(),
{
    if b.len() == 0 {
        assert(a + b =~= a);
        assert(words(a) + words(b) =~= words(a));
    } else {
        let s = a + b;
        let v = b.drop_last();
        lemma_words_concat(a, v);
        assert(s.drop_last() =~= a + v);
        assert(s.last() == b.last());
        let c = b.last();
        if is_white(c) {
        } else if b.len() >= 2 {
            assert(s[s.len() - 2] == b[b.len() - 2]);
            if !is_white(b[b.len() - 2]) {
                assert(v.last() == b[b.len() - 2]);
                lemma_words_nonempty(v);
                let p = words(a) + words(v);
                assert(p.drop_last() =~= words(a) + words(v).drop_last());
                assert(p.last() == words(v).last());
                assert(words(s) == p.drop_last().push(p.last().push(c)));
                assert(words(b) == words(v).drop_last().push(words(v).last().push(c)));
                assert(words(s) =~= words(a) + words(b));
            } else {
                assert(words(s) =~= words(a) + words(b));
            }
        } else {
            assert(v.len() == 0);
            assert(words(v) =~= Seq::<Seq<char>>::empty());
            if a.len() > 0 {
                assert(s[s.len() - 2] == a.last());
            }
            assert(words(b) == words(v).push(seq![c]));
            assert(words(s) =~= words(a) + words(b));
        }
    }
}

/// Lines joined by line breaks have the words of each line, in order.
pub proof fn lemma_words_of_lines(ws: Seq<Seq<char>>)
    ensures
        words(join(ws, seq!['\n'])) == words_of_all(ws),
    decreases ws.len(),
{
    if ws.len() == 0 {
    } else if ws.len() == 1 {
        assert(ws.drop_last().len() == 0);
        assert(words_of_all(ws.drop_last()) =~= Seq::<Seq<char>>::empty());
        assert(words_of_all(ws) =~= words(ws[0]));
    } else {
        let d = ws.drop_last();
        lemma_words_of_lines(d);
        let jd = join(d, seq!['\n']);
        let jn = jd + seq!['\n'];
        assert(is_white('\n'));
        assert(jn.drop_last() =~= jd);
        assert(words(jn) == words(jd));
        lemma_words_concat(jn, ws.last());
    }
}

/// Squashing twice is squashing once.
pub proof fn lemma_squash_twice(s: Seq<char>)
    ensures
        squash(squash(s)) == squash(s),
{
    lemma_words_are_words(s);
    lemma_words_of_join(words(s));
}


/// Joining two non-empty lists is joining each and putting the separator
/// between them.
pub proof fn lemma_join_concat(a: Seq<Seq<char>>, b: Seq<Seq<char>>, sep: Seq<char>)
    requires
        a.len() > 0,
        b.len() > 0,
    ensures
        join(a + b, sep) == join(a, sep) + sep + join(b, sep),
    decreases b.len(),
{
    let ab = a + b;
    assert(ab.drop_last() =~= a + b.drop_last());
    assert(ab.last() == b.last());
    if b.len() == 1 {
        assert(b.drop_last() =~= Seq::<Seq<char>>::empty());
        assert(a + b.drop_last() =~= a);
        assert(join(b, sep) == b[0]);
        assert(b.last() == b[0]);
    } else {
        lemma_join_concat(a, b.drop_last(), sep);
        assert(join(ab, sep) =~= join(a, sep) + sep + join(b, sep));
    }
}

/// The items of `y`, when there are any, stand joined somewhere in the
/// joining of `x`, `y` and `z`.
pub proof fn lemma_join_holds(x: Seq<Seq<char>>, y: Seq<Seq<char>>, z: Seq<Seq<char>>, sep: Seq<char>)
    requires
        y.len() > 0,
    ensures
        infix(join(x + y + z, sep), join(y, sep)),
{
    let jy = join(y, sep);
    let xy = x + y;
    let s = join(xy + z, sep);
    let i: int = if x.len() == 0 {
        0
    } else {
        join(x, sep).len() + sep.len() as int
    };
    if x.len() == 0 {
        assert(xy =~= y);
    } else {
        lemma_join_concat(x, y, sep);
    }
    assert(join(xy, sep).subrange(i, i + jy.len()) =~= jy);
    if z.len() == 0 {
        assert(xy + z =~= xy);
    } else {
        lemma_join_concat(xy, z, sep);
        assert(s.subrange(i, i + jy.len()) =~= join(xy, sep).subrange(i, i + jy.len()));
    }
    assert(occurs_at(s, jy, i));
}

/// Text with a character other than whitespace has a word.
pub proof fn lemma_has_word(s: Seq<char>, k: int)
    requires
        0 <= k < s.len(),
        !is_white(s[k]),
    ensures
        words(s).len() > 0,
    decreases s.len(),
{
    if !is_white(s.last()) {
        lemma_words_nonempty(s);
    } else {
        assert(s.drop_last()[k] == s[k]);
        lemma_has_word(s.drop_last(), k);
    }
}

/// The words of a list of lines are those of the lines before line `i`,
/// then those of line `i`, then those of the lines after it.
pub proof fn lemma_words_of_all_at(ws: Seq<Seq<char>>, i: int)
    requires
        0 <= i < ws.len(),
    ensures
        words_of_all(ws) == words_of_all(ws.take(i)) + words(ws[i]) + words_of_all(ws.skip(i + 1)),
    decreases ws.len(),
{
    let d = ws.drop_last();
    if i == ws.len() - 1 {
        assert(ws.take(i) =~= d);
        assert(ws.skip(i + 1).len() == 0);
        assert(words_of_all(ws.skip(i + 1)) =~= Seq::<Seq<char>>::empty());
        assert(ws.last() == ws[i]);
        assert(words_of_all(ws) =~= words_of_all(ws.take(i)) + words(ws[i]) + words_of_all(
            ws.skip(i + 1),
        ));
    } else {
        lemma_words_of_all_at(d, i);
        assert(d.take(i) =~= ws.take(i));
        assert(d[i] == ws[i]);
        assert(ws.skip(i + 1).drop_last() =~= d.skip(i + 1));
        assert(ws.skip(i + 1).last() == ws.last());
        assert(words_of_all(ws.skip(i + 1)) == words_of_all(d.skip(i + 1)) + words(ws.last()));
        assert(words_of_all(ws) =~= words_of_all(ws.take(i)) + words(ws[i]) + words_of_all(
            ws.skip(i + 1),
        ));
    }
}

} // verus!
