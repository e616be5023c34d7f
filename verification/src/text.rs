use vstd::prelude::*;

verus! {

/// Every character of `s` is ASCII.
pub open spec fn is_ascii_text(s: Seq<char>) -> bool {
    forall|i: int| 0 <= i < s.len() ==> (#[trigger] s[i] as u32) < 128
}

/// An ASCII decimal digit.
pub open spec fn is_digit(c: char) -> bool {
    '0' <= c && c <= '9'
}

/// An ASCII letter or digit (what `char::is_alphanumeric` accepts among ASCII characters).
pub open spec fn is_alnum(c: char) -> bool {
    is_digit(c) || ('a' <= c && c <= 'z') || ('A' <= c && c <= 'Z')
}

/// A character that may appear in a name: a letter, a digit or `_`.
pub open spec fn is_word_char(c: char) -> bool {
    is_alnum(c) || c == '_'
}

/// A white-space character: what `char::is_whitespace` accepts, the characters of
/// Unicode's `White_Space` property.
pub open spec fn is_ws(c: char) -> bool {
    ('\t' <= c && c <= '\r') || c == ' ' || c == '\u{85}' || c == '\u{A0}' || c == '\u{1680}' || ('\u{2000}'
        <= c && c <= '\u{200A}') || c == '\u{2028}' || c == '\u{2029}' || c == '\u{202F}' || c == '\u{205F}' || c
        == '\u{3000}'
}

/// `p` is a prefix of `s`.
pub open spec fn has_prefix(s: Seq<char>, p: Seq<char>) -> bool {
    p.len() <= s.len() && s.subrange(0, p.len() as int) == p
}

/// `p` is a suffix of `s`.
pub open spec fn has_suffix(s: Seq<char>, p: Seq<char>) -> bool {
    p.len() <= s.len() && s.subrange(s.len() - p.len(), s.len() as int) == p
}

/// `c` occurs in `s`.
pub open spec fn has_char(s: Seq<char>, c: char) -> bool {
    exists|i: int| 0 <= i < s.len() && s[i] == c
}

/// Every character of `s` is a digit.
pub open spec fn all_digits(s: Seq<char>) -> bool {
    forall|i: int| 0 <= i < s.len() ==> is_digit(#[trigger] s[i])
}

/// The number that the digits `s` write in decimal.
pub open spec fn digits_value(s: Seq<char>) -> nat
    decreases s.len(),
{
    if s.len() == 0 {
        0
    } else {
        digits_value(s.drop_last()) * 10 + ((s.last() as u32) - ('0' as u32)) as nat
    }
}

/// The value that the decimal digits `s` write, when it fits in a `u8`.
pub open spec fn spec_parse_u8(s: Seq<char>) -> Option<u8> {
    if s.len() > 0 && all_digits(s) && digits_value(s) <= 255 {
        Some(digits_value(s) as u8)
    } else {
        None
    }
}

/// The index of the first `c` in `s`.
pub open spec fn first_index(s: Seq<char>, c: char) -> Option<int>
    decreases s.len(),
{
    if s.len() == 0 {
        None
    } else if s[0] == c {
        Some(0)
    } else {
        match first_index(s.drop_first(), c) {
            Some(i) => Some(i + 1),
            None => None,
        }
    }
}

/// The text before the first `c`, or all of `s`: what `s.split(c).next()` gives.
pub open spec fn before_char(s: Seq<char>, c: char) -> Seq<char> {
    match first_index(s, c) {
        Some(i) => s.subrange(0, i),
        None => s,
    }
}

/// The pieces of `s` between the occurrences of `c`: what `s.split(c)` gives.
pub open spec fn split_on(s: Seq<char>, c: char) -> Seq<Seq<char>>
    decreases s.len(),
{
    if s.len() == 0 {
        seq![Seq::<char>::empty()]
    } else {
        let parts = split_on(s.drop_last(), c);
        if s.last() == c {
            parts.push(Seq::<char>::empty())
        } else {
            parts.update(parts.len() - 1, parts.last().push(s.last()))
        }
    }
}

/// The state of a scan that splits `s` at the commas outside brackets: the pieces so
/// far and the bracket depth (`[` opens, `]` closes; brackets stay in the pieces).
pub open spec fn split_top_state(s: Seq<char>) -> (Seq<Seq<char>>, int)
    decreases s.len(),
{
    if s.len() == 0 {
        (seq![Seq::<char>::empty()], 0)
    } else {
        let (parts, depth) = split_top_state(s.drop_last());
        let c = s.last();
        if c == '[' {
            (parts.update(parts.len() - 1, parts.last().push(c)), depth + 1)
        } else if c == ']' {
            (parts.update(parts.len() - 1, parts.last().push(c)), depth - 1)
        } else if depth == 0 && c == ',' {
            (parts.push(Seq::<char>::empty()), depth)
        } else {
            (parts.update(parts.len() - 1, parts.last().push(c)), depth)
        }
    }
}

/// `s` split at the commas outside brackets.
pub open spec fn split_top(s: Seq<char>) -> Seq<Seq<char>> {
    split_top_state(s).0
}

/// The pieces of a split are never none.
pub proof fn lemma_split_top_nonempty(s: Seq<char>)
    ensures
        split_top_state(s).0.len() >= 1,
    decreases s.len(),
{
    if s.len() > 0 {
        lemma_split_top_nonempty(s.drop_last());
    }
}

/// The total length of the texts in `ps`.
pub open spec fn total_len(ps: Seq<Seq<char>>) -> int
    decreases ps.len(),
{
    if ps.len() == 0 {
        0
    } else {
        total_len(ps.drop_last()) + ps.last().len()
    }
}

/// A split at commas keeps every character but the commas it splits at.
pub proof fn lemma_split_top_total(s: Seq<char>)
    ensures
        split_top(s).len() >= 1,
        total_len(split_top(s)) + split_top(s).len() - 1 == s.len(),
    decreases s.len(),
{
    lemma_split_top_nonempty(s);
    if s.len() == 0 {
        let one = seq![Seq::<char>::empty()];
        assert(one.drop_last() =~= Seq::<Seq<char>>::empty());
        assert(total_len(Seq::<Seq<char>>::empty()) == 0);
        assert(total_len(one) == 0);
    } else {
        lemma_split_top_total(s.drop_last());
        let (ps, d) = split_top_state(s.drop_last());
        let c = s.last();
        lemma_split_top_nonempty(s.drop_last());
        assert(total_len(ps) == total_len(ps.drop_last()) + ps.last().len());
        assert(split_top(s) == split_top_state(s).0);
        if c == '[' || c == ']' || !(d == 0 && c == ',') {
            let grown = ps.update(ps.len() - 1, ps.last().push(c));
            assert(grown.drop_last() =~= ps.drop_last());
            assert(total_len(grown) == total_len(ps) + 1);
        } else {
            let more = ps.push(Seq::<char>::empty());
            assert(more.drop_last() =~= ps);
            assert(total_len(more) == total_len(ps));
        }
    }
}

/// `t` holds no bracket and no comma.
pub open spec fn no_separators(t: Seq<char>) -> bool {
    forall|i: int| 0 <= i < t.len() ==> #[trigger] t[i] != '[' && t[i] != ']' && t[i] != ','
}

/// Text without brackets or commas extends the last piece of a split.
pub proof fn lemma_split_extends(x: Seq<char>, y: Seq<char>)
    requires
        no_separators(y),
    ensures
        split_top_state(x + y) == ({
            let (ps, d) = split_top_state(x);
            (ps.update(ps.len() - 1, ps.last() + y), d)
        }),
    decreases y.len(),
{
    lemma_split_top_nonempty(x);
    let (ps, d) = split_top_state(x);
    if y.len() == 0 {
        assert(x + y =~= x);
        assert(ps.update(ps.len() - 1, ps.last() + y) =~= ps);
    } else {
        let y0 = y.drop_last();
        assert forall|i: int| 0 <= i < y0.len() implies #[trigger] y0[i] != '[' && y0[i] != ']' && y0[i] != ',' by {
            assert(y0[i] == y[i]);
        }
        lemma_split_extends(x, y0);
        assert((x + y).drop_last() =~= x + y0);
        assert((x + y).last() == y.last());
        assert(y[y.len() - 1] != ',');
        let mid = ps.update(ps.len() - 1, ps.last() + y0);
        assert(mid.last() == ps.last() + y0);
        assert((ps.last() + y0).push(y.last()) =~= ps.last() + y);
        assert(mid.update(mid.len() - 1, mid.last().push(y.last())) =~= ps.update(ps.len() - 1, ps.last() + y));
    }
}

/// Two texts without brackets or commas, with a comma between them, split into the two.
pub proof fn lemma_split_pair(f: Seq<char>, s: Seq<char>)
    requires
        no_separators(f),
        no_separators(s),
    ensures
        split_top(f + seq![','] + s) == seq![f, s],
{
    let e = Seq::<char>::empty();
    assert(split_top_state(e) == (seq![e], 0int));
    lemma_split_extends(e, f);
    assert(e + f =~= f);
    assert(seq![e].update(0, e + f) =~= seq![f]);
    let x1 = f + seq![','];
    assert(x1.drop_last() =~= f);
    assert(split_top_state(x1) == (seq![f, e], 0int)) by {
        assert(seq![f].push(e) =~= seq![f, e]);
    }
    lemma_split_extends(x1, s);
    assert(seq![f, e].update(1, e + s) =~= seq![f, s]);
}

/// The pieces of a split on a character are never none.
pub proof fn lemma_split_on_nonempty(s: Seq<char>, c: char)
    ensures
        split_on(s, c).len() >= 1,
    decreases s.len(),
{
    if s.len() > 0 {
        lemma_split_on_nonempty(s.drop_last(), c);
    }
}

/// The number of white-space characters that `s` begins with.
pub open spec fn lead_ws(s: Seq<char>) -> nat
    decreases s.len(),
{
    if s.len() > 0 && is_ws(s[0]) {
        1 + lead_ws(s.drop_first())
    } else {
        0
    }
}

/// The number of white-space characters that `s` ends with.
pub open spec fn trail_ws(s: Seq<char>) -> nat
    decreases s.len(),
{
    if s.len() > 0 && is_ws(s.last()) {
        1 + trail_ws(s.drop_last())
    } else {
        0
    }
}

/// `s` without the white space at both ends.
pub open spec fn trim_spec(s: Seq<char>) -> Seq<char> {
    if lead_ws(s) >= s.len() {
        Seq::empty()
    } else {
        s.subrange(lead_ws(s) as int, s.len() - trail_ws(s))
    }
}

/// The words of `s`: the maximal runs of non-white-space characters, in order.
pub open spec fn words(s: Seq<char>) -> Seq<Seq<char>>
    decreases s.len(),
{
    if s.len() == 0 {
        Seq::empty()
    } else {
        let w = words(s.drop_last());
        let c = s.last();
        if is_ws(c) {
            w
        } else if s.len() >= 2 && !is_ws(s[s.len() - 2]) {
            w.update(w.len() - 1, w.last().push(c))
        } else {
            w.push(seq![c])
        }
    }
}

/// `s` without its white-space characters.
pub open spec fn without_ws(s: Seq<char>) -> Seq<char> {
    s.filter(|c: char| !is_ws(c))
}

/// Whether `s` begins with `p`.
pub fn starts_with(s: &Vec<char>, p: &[char]) -> (r: bool)
    ensures
        r == has_prefix(s@, p@),
{
    if p.len() > s.len() {
        return false;
    }
    let mut i: usize = 0;
    while i < p.len()
        invariant
            p@.len() <= s@.len(),
            i <= p@.len(),
            s@.subrange(0, i as int) == p@.subrange(0, i as int),
        decreases p@.len() - i,
    {
        if s[i] != p[i] {
            assert(s@.subrange(0, p@.len() as int)[i as int] != p@[i as int]);
            return false;
        }
        i = i + 1;
        assert(s@.subrange(0, i as int) =~= p@.subrange(0, i as int));
    }
    assert(p@.subrange(0, p@.len() as int) =~= p@);
    true
}

/// Whether `s` ends with `c`.
pub fn ends_with_char(s: &Vec<char>, c: char) -> (r: bool)
    ensures
        r == (s@.len() > 0 && s@.last() == c),
{
    s.len() > 0 && s[s.len() - 1] == c
}

/// Whether `c` occurs in `s`.
pub fn contains_char(s: &Vec<char>, c: char) -> (r: bool)
    ensures
        r == has_char(s@, c),
{
    let mut i: usize = 0;
    while i < s.len()
        invariant
            i <= s@.len(),
            forall|j: int| 0 <= j < i ==> s@[j] != c,
        decreases s@.len() - i,
    {
        if s[i] == c {
            return true;
        }
        i = i + 1;
    }
    false
}

/// The first index of `c` in `s`.
pub proof fn lemma_first_index(s: Seq<char>, c: char)
    ensures
        match first_index(s, c) {
            Some(i) => 0 <= i < s.len() && s[i] == c && forall|j: int| 0 <= j < i ==> s[j] != c,
            None => forall|j: int| 0 <= j < s.len() ==> s[j] != c,
        },
    decreases s.len(),
{
    if s.len() > 0 {
        lemma_first_index(s.drop_first(), c);
        if s[0] != c {
            match first_index(s.drop_first(), c) {
                Some(i) => {
                    assert forall|j: int| 0 <= j < i + 1 implies s[j] != c by {
                        if j > 0 {
                            assert(s[j] == s.drop_first()[j - 1]);
                        }
                    }
                },
                None => {
                    assert forall|j: int| 0 <= j < s.len() implies s[j] != c by {
                        if j > 0 {
                            assert(s[j] == s.drop_first()[j - 1]);
                        }
                    }
                },
            }
        }
    }
}

/// An index characterised as the first `c` is what `first_index` gives.
pub proof fn lemma_first_index_unique(s: Seq<char>, c: char, i: int)
    requires
        0 <= i <= s.len(),
        i < s.len() ==> s[i] == c,
        forall|j: int| 0 <= j < i ==> s[j] != c,
    ensures
        first_index(s, c) == (if i < s.len() { Some(i) } else { None::<int> }),
{
    lemma_first_index(s, c);
    match first_index(s, c) {
        Some(k) => {
            if k < i {
            } else if k > i {
            }
        },
        None => {},
    }
}

/// The index of the first `c` in `s`.
pub fn find_char(s: &Vec<char>, c: char) -> (r: Option<usize>)
    ensures
        match r {
            Some(i) => first_index(s@, c) == Some(i as int),
            None => first_index(s@, c) == None::<int>,
        },
{
    let mut i: usize = 0;
    while i < s.len()
        invariant
            i <= s@.len(),
            forall|j: int| 0 <= j < i ==> s@[j] != c,
        decreases s@.len() - i,
    {
        if s[i] == c {
            proof {
                lemma_first_index_unique(s@, c, i as int);
            }
            return Some(i);
        }
        i = i + 1;
    }
    proof {
        lemma_first_index_unique(s@, c, s@.len() as int);
    }
    None
}

/// The characters of `s` from `from` up to `to`.
pub fn slice(s: &Vec<char>, from: usize, to: usize) -> (r: Vec<char>)
    requires
        from <= to <= s@.len(),
    ensures
        r@ == s@.subrange(from as int, to as int),
{
    let mut r: Vec<char> = Vec::new();
    let mut i = from;
    while i < to
        invariant
            from <= i <= to <= s@.len(),
            r@ == s@.subrange(from as int, i as int),
        decreases to - i,
    {
        r.push(s[i]);
        i = i + 1;
        assert(r@ =~= s@.subrange(from as int, i as int));
    }
    r
}

/// The text of `s` before the first `c`, or all of `s`.
pub fn prefix_before(s: &Vec<char>, c: char) -> (r: Vec<char>)
    ensures
        r@ == before_char(s@, c),
{
    match find_char(s, c) {
        Some(i) => {
            proof {
                lemma_first_index(s@, c);
            }
            slice(s, 0, i)
        },
        None => slice(s, 0, s.len()),
    }
}

/// Whether `a` and `b` hold the same characters.
pub fn same_text(a: &Vec<char>, b: &Vec<char>) -> (r: bool)
    ensures
        r == (a@ == b@),
{
    if a.len() != b.len() {
        return false;
    }
    let mut i: usize = 0;
    while i < a.len()
        invariant
            a@.len() == b@.len(),
            i <= a@.len(),
            forall|j: int| 0 <= j < i ==> a@[j] == b@[j],
        decreases a@.len() - i,
    {
        if a[i] != b[i] {
            return false;
        }
        i = i + 1;
    }
    assert(a@ =~= b@);
    true
}

/// The value that the decimal digits `s` write, when it fits in a `u8`.
pub fn parse_u8(s: &Vec<char>) -> (r: Option<u8>)
    ensures
        r == spec_parse_u8(s@),
{
    if s.len() == 0 {
        return None;
    }
    let mut v: u32 = 0;
    let mut i: usize = 0;
    while i < s.len()
        invariant
            0 < s@.len(),
            i <= s@.len(),
            all_digits(s@.subrange(0, i as int)),
            v == digits_value(s@.subrange(0, i as int)),
            v <= 255,
        decreases s@.len() - i,
    {
        let c = s[i];
        if !('0' <= c && c <= '9') {
            assert(!all_digits(s@));
            return None;
        }
        let d = (c as u32) - ('0' as u32);
        assert(s@.subrange(0, i + 1).drop_last() =~= s@.subrange(0, i as int));
        v = v * 10 + d;
        i = i + 1;
        assert(all_digits(s@.subrange(0, i as int)));
        if v > 255 {
            proof {
                lemma_digits_prefix_bound(s@, i as int);
            }
            return None;
        }
    }
    assert(s@.subrange(0, s@.len() as int) =~= s@);
    Some(v as u8)
}

/// What `str::parse::<u8>` gives: digits with an optional `+` before them, read when
/// the value fits.
pub open spec fn spec_parse_u8_text(s: Seq<char>) -> Option<u8> {
    if s.len() > 0 && s[0] == '+' {
        spec_parse_u8(s.drop_first())
    } else {
        spec_parse_u8(s)
    }
}

/// Reads a number as `str::parse::<u8>` does.
pub fn parse_u8_text(s: &Vec<char>) -> (r: Option<u8>)
    ensures
        r == spec_parse_u8_text(s@),
{
    if s.len() > 0 && s[0] == '+' {
        let t = slice(s, 1, s.len());
        assert(t@ =~= s@.drop_first());
        parse_u8(&t)
    } else {
        parse_u8(s)
    }
}

/// The value of the digits grows with each further digit.
pub proof fn lemma_digits_prefix_bound(s: Seq<char>, i: int)
    requires
        0 <= i <= s.len(),
        all_digits(s.subrange(0, i)),
    ensures
        all_digits(s) ==> digits_value(s) >= digits_value(s.subrange(0, i)),
    decreases s.len() - i,
{
    if i < s.len() && all_digits(s) {
        assert(s.subrange(0, i + 1).drop_last() =~= s.subrange(0, i));
        lemma_digits_prefix_bound(s, i + 1);
    }
    if i == s.len() {
        assert(s.subrange(0, i) =~= s);
    }
}

/// `s` split at the commas outside brackets.
pub fn split_top_level(s: &Vec<char>) -> (r: Vec<Vec<char>>)
    ensures
        r@.len() == split_top(s@).len(),
        forall|k: int| 0 <= k < r@.len() ==> #[trigger] r@[k]@ == split_top(s@)[k],
{
    let mut parts: Vec<Vec<char>> = Vec::new();
    let mut buffer: Vec<char> = Vec::new();
    let mut opens: usize = 0;
    let mut closes: usize = 0;
    let mut i: usize = 0;
    while i < s.len()
        invariant
            i <= s@.len(),
            opens + closes <= i,
            ({
                let (ps, d) = split_top_state(s@.subrange(0, i as int));
                &&& ps.len() == parts@.len() + 1
                &&& forall|k: int| 0 <= k < parts@.len() ==> #[trigger] parts@[k]@ == ps[k]
                &&& buffer@ == ps.last()
                &&& d == opens - closes
            }),
        decreases s@.len() - i,
    {
        proof {
            assert(s@.subrange(0, i + 1).drop_last() =~= s@.subrange(0, i as int));
        }
        let c = s[i];
        if c == '[' {
            opens = opens + 1;
            buffer.push(c);
        } else if c == ']' {
            closes = closes + 1;
            buffer.push(c);
        } else if opens == closes && c == ',' {
            parts.push(buffer);
            buffer = Vec::new();
        } else {
            buffer.push(c);
        }
        i = i + 1;
    }
    parts.push(buffer);
    assert(s@.subrange(0, s@.len() as int) =~= s@);
    parts
}

/// `s` split at every `c`.
pub fn split_char(s: &Vec<char>, c: char) -> (r: Vec<Vec<char>>)
    ensures
        r@.len() == split_on(s@, c).len(),
        forall|k: int| 0 <= k < r@.len() ==> #[trigger] r@[k]@ == split_on(s@, c)[k],
{
    let mut parts: Vec<Vec<char>> = Vec::new();
    let mut buffer: Vec<char> = Vec::new();
    let mut i: usize = 0;
    while i < s.len()
        invariant
            i <= s@.len(),
            ({
                let ps = split_on(s@.subrange(0, i as int), c);
                &&& ps.len() == parts@.len() + 1
                &&& forall|k: int| 0 <= k < parts@.len() ==> #[trigger] parts@[k]@ == ps[k]
                &&& buffer@ == ps.last()
            }),
        decreases s@.len() - i,
    {
        proof {
            assert(s@.subrange(0, i + 1).drop_last() =~= s@.subrange(0, i as int));
            lemma_split_on_nonempty(s@.subrange(0, i as int), c);
        }
        if s[i] == c {
            parts.push(buffer);
            buffer = Vec::new();
        } else {
            buffer.push(s[i]);
        }
        i = i + 1;
    }
    parts.push(buffer);
    assert(s@.subrange(0, s@.len() as int) =~= s@);
    parts
}

/// `s` without the white space at both ends.
pub fn trim(s: &Vec<char>) -> (r: Vec<char>)
    ensures
        r@ == trim_spec(s@),
{
    let n = s.len();
    let mut a: usize = 0;
    assert(s@.subrange(0, n as int) =~= s@);
    while a < n && is_space(s[a])
        invariant
            n == s@.len(),
            a <= n,
            lead_ws(s@) == a + lead_ws(s@.subrange(a as int, n as int)),
        decreases n - a,
    {
        assert(s@.subrange(a as int, n as int).drop_first() =~= s@.subrange(a + 1, n as int));
        a = a + 1;
    }
    if a == n {
        return Vec::new();
    }
    assert(lead_ws(s@.subrange(a as int, n as int)) == 0);
    let mut b: usize = n;
    while b > a + 1 && is_space(s[b - 1])
        invariant
            n == s@.len(),
            a < b <= n,
            !is_ws(s@[a as int]),
            trail_ws(s@) == (n - b) + trail_ws(s@.subrange(0, b as int)),
        decreases b,
    {
        assert(s@.subrange(0, b as int).drop_last() =~= s@.subrange(0, b - 1));
        b = b - 1;
    }
    if b == a + 1 {
        assert(s@.subrange(0, b as int).last() == s@[a as int]);
    }
    assert(trail_ws(s@.subrange(0, b as int)) == 0);
    slice(s, a, b)
}

/// A list of texts in abstract form.
pub open spec fn texts_view(v: Seq<Vec<char>>) -> Seq<Seq<char>> {
    v.map_values(|t: Vec<char>| t@)
}

/// A text that ends in a non-white-space character has a word.
pub proof fn lemma_words_nonempty(s: Seq<char>)
    requires
        s.len() > 0,
        !is_ws(s.last()),
    ensures
        words(s).len() > 0,
    decreases s.len(),
{
    if s.len() >= 2 && !is_ws(s[s.len() - 2]) {
        lemma_words_nonempty(s.drop_last());
    }
}

/// The words of `s`, as `str::split_whitespace` gives them.
pub fn split_whitespace(s: &Vec<char>) -> (r: Vec<Vec<char>>)
    ensures
        texts_view(r@) == words(s@),
{
    let mut out: Vec<Vec<char>> = Vec::new();
    let mut i: usize = 0;
    while i < s.len()
        invariant
            i <= s@.len(),
            texts_view(out@) == words(s@.subrange(0, i as int)),
        decreases s@.len() - i,
    {
        let ghost pre = s@.subrange(0, i as int);
        let ghost post = s@.subrange(0, i + 1);
        assert(post.drop_last() =~= pre);
        let c = s[i];
        if is_space(c) {
        } else if i >= 1 && !is_space(s[i - 1]) {
            proof {
                assert(pre.last() == s@[i - 1]);
                lemma_words_nonempty(pre);
            }
            let ghost before = texts_view(out@);
            let mut last = match out.pop() {
                Some(l) => l,
                None => {
                    assert(false);
                    Vec::new()
                },
            };
            last.push(c);
            out.push(last);
            assert(texts_view(out@) =~= before.update(before.len() - 1, before.last().push(c)));
        } else {
            let ghost before = texts_view(out@);
            let mut w: Vec<char> = Vec::new();
            w.push(c);
            out.push(w);
            assert(texts_view(out@) =~= before.push(seq![c]));
        }
        i = i + 1;
    }
    assert(s@.subrange(0, s@.len() as int) =~= s@);
    out
}

/// Whether `c` is white space, as `char::is_whitespace` says.
pub fn is_space(c: char) -> (r: bool)
    ensures
        r == is_ws(c),
{
    ('\t' <= c && c <= '\r') || c == ' ' || c == '\u{85}' || c == '\u{A0}' || c == '\u{1680}' || ('\u{2000}'
        <= c && c <= '\u{200A}') || c == '\u{2028}' || c == '\u{2029}' || c == '\u{202F}' || c == '\u{205F}' || c
        == '\u{3000}'
}

/// Whether `c` is an ASCII letter or digit.
pub fn is_alnum_char(c: char) -> (r: bool)
    ensures
        r == is_alnum(c),
{
    ('0' <= c && c <= '9') || ('a' <= c && c <= 'z') || ('A' <= c && c <= 'Z')
}

/// Appends the characters of `s` to `v`.
pub fn push_all(v: &mut Vec<char>, s: &[char])
    ensures
        final(v)@ == old(v)@ + s@,
{
    let mut i: usize = 0;
    while i < s.len()
        invariant
            i <= s@.len(),
            v@ == old(v)@ + s@.subrange(0, i as int),
        decreases s@.len() - i,
    {
        v.push(s[i]);
        i = i + 1;
        assert(v@ =~= old(v)@ + s@.subrange(0, i as int));
    }
    assert(s@.subrange(0, s@.len() as int) =~= s@);
}

/// Appends the characters of `s` to `v`.
pub fn append_chars(v: &mut Vec<char>, s: &Vec<char>)
    ensures
        final(v)@ == old(v)@ + s@,
{
    let mut i: usize = 0;
    while i < s.len()
        invariant
            i <= s@.len(),
            v@ == old(v)@ + s@.subrange(0, i as int),
        decreases s@.len() - i,
    {
        v.push(s[i]);
        i = i + 1;
        assert(v@ =~= old(v)@ + s@.subrange(0, i as int));
    }
    assert(s@.subrange(0, s@.len() as int) =~= s@);
}

/// The string that holds the characters of `v`, in order: `String`'s
/// `FromIterator<char>`, through `collect`. Its contract claims only that the
/// string's characters are those of `v`.
#[verifier::external_body]
pub(crate) fn string_from_chars(v: &Vec<char>) -> (s: String)
    ensures
        s@ == v@,
{
    v.iter().collect()
}

/// The characters of `s`.
pub fn to_chars(s: &String) -> (r: Vec<char>)
    ensures
        r@ == s@,
{
    let mut r: Vec<char> = Vec::new();
    for c in it: s.chars()
        invariant
            r@.len() == it.index(),
            forall|j: int| 0 <= j < r@.len() ==> r@[j] == it.seq()[j],
    {
        r.push(c);
    }
    assert(r@ =~= s@);
    r
}

/// The index of the last `c` in `s`.
pub open spec fn last_index(s: Seq<char>, c: char) -> Option<int>
    decreases s.len(),
{
    if s.len() == 0 {
        None
    } else if s.last() == c {
        Some(s.len() - 1)
    } else {
        last_index(s.drop_last(), c)
    }
}

/// The last index of `c` in `s`.
pub proof fn lemma_last_index(s: Seq<char>, c: char)
    ensures
        match last_index(s, c) {
            Some(i) => 0 <= i < s.len() && s[i] == c && forall|j: int| i < j < s.len() ==> s[j] != c,
            None => forall|j: int| 0 <= j < s.len() ==> s[j] != c,
        },
    decreases s.len(),
{
    if s.len() > 0 {
        lemma_last_index(s.drop_last(), c);
        if s.last() != c {
            match last_index(s.drop_last(), c) {
                Some(i) => {
                    assert forall|j: int| i < j < s.len() implies s[j] != c by {
                        if j < s.len() - 1 {
                            assert(s[j] == s.drop_last()[j]);
                        }
                    }
                },
                None => {
                    assert forall|j: int| 0 <= j < s.len() implies s[j] != c by {
                        if j < s.len() - 1 {
                            assert(s[j] == s.drop_last()[j]);
                        }
                    }
                },
            }
        }
    }
}

/// The index of the last `c` in `s`.
pub fn find_last(s: &Vec<char>, c: char) -> (r: Option<usize>)
    ensures
        match r {
            Some(i) => last_index(s@, c) == Some(i as int),
            None => last_index(s@, c) == None::<int>,
        },
{
    let mut i: usize = s.len();
    while i > 0
        invariant
            i <= s@.len(),
            forall|j: int| i <= j < s@.len() ==> s@[j] != c,
        decreases i,
    {
        if s[i - 1] == c {
            proof {
                lemma_last_index_at(s@, c, i as int);
                assert(s@.subrange(0, i as int).last() == c);
            }
            return Some(i - 1);
        }
        i = i - 1;
    }
    proof {
        lemma_last_index_at(s@, c, 0);
    }
    None
}

/// `sym` stands in `c` from index `start` on.
pub open spec fn occurs_at(c: Seq<char>, sym: Seq<char>, start: int) -> bool {
    0 <= start && start + sym.len() <= c.len() && c.subrange(start, start + sym.len()) == sym
}

/// Whether `sym` stands in `c` from index `start` on.
pub fn matches_at(c: &Vec<char>, sym: &Vec<char>, start: usize) -> (r: bool)
    ensures
        r == occurs_at(c@, sym@, start as int),
{
    if start > c.len() || sym.len() > c.len() - start {
        return false;
    }
    let mut i: usize = 0;
    while i < sym.len()
        invariant
            start + sym@.len() <= c@.len(),
            c@.len() <= usize::MAX,
            i <= sym@.len(),
            c@.subrange(start as int, start + i) == sym@.subrange(0, i as int),
        decreases sym@.len() - i,
    {
        if c[start + i] != sym[i] {
            assert(c@.subrange(start as int, start + sym@.len())[i as int] != sym@[i as int]);
            return false;
        }
        i = i + 1;
        assert(c@.subrange(start as int, start + i) =~= sym@.subrange(0, i as int));
    }
    assert(sym@.subrange(0, sym@.len() as int) =~= sym@);
    true
}

/// The last end index `p` at or before `p0` such that `sym` ends at `p` in `c`, searching
/// from `p0` down.
pub open spec fn search_end(c: Seq<char>, sym: Seq<char>, p0: int) -> Option<int>
    decreases p0 + 1,
{
    if p0 < 0 {
        None
    } else if occurs_at(c, sym, p0 + 1 - sym.len()) {
        Some(p0)
    } else {
        search_end(c, sym, p0 - 1)
    }
}

/// The index at which the last occurrence of `sym` in `c` ends.
pub open spec fn last_end(c: Seq<char>, sym: Seq<char>) -> Option<int> {
    search_end(c, sym, c.len() - 1)
}

/// The index at which the last occurrence of `sym` in `c` ends.
pub fn find_last_end(c: &Vec<char>, sym: &Vec<char>) -> (r: Option<usize>)
    ensures
        match r {
            Some(p) => last_end(c@, sym@) == Some(p as int) && p < c@.len() && p + 1 >= sym@.len(),
            None => last_end(c@, sym@) == None::<int>,
        },
{
    let mut j: usize = c.len();
    while j > 0
        invariant
            j <= c@.len(),
            last_end(c@, sym@) == search_end(c@, sym@, j - 1),
        decreases j,
    {
        if j >= sym.len() && matches_at(c, sym, j - sym.len()) {
            return Some(j - 1);
        }
        proof {
            assert(!occurs_at(c@, sym@, j - sym@.len()));
        }
        j = j - 1;
    }
    None
}

/// `c` occurs in `s` exactly when it has a last occurrence.
pub proof fn lemma_has_char_last(s: Seq<char>, c: char)
    ensures
        has_char(s, c) <==> last_index(s, c) is Some,
{
    lemma_last_index(s, c);
    if has_char(s, c) {
        let i = choose|i: int| 0 <= i < s.len() && s[i] == c;
        assert(s[i] == c);
    }
}

/// An index characterised as the last `c` before `i` is what `last_index` gives.
pub proof fn lemma_last_index_at(s: Seq<char>, c: char, i: int)
    requires
        0 <= i <= s.len(),
        forall|j: int| i <= j < s.len() ==> s[j] != c,
    ensures
        last_index(s, c) == last_index(s.subrange(0, i), c),
    decreases s.len() - i,
{
    if i < s.len() {
        assert(s.drop_last().subrange(0, i) =~= s.subrange(0, i));
        lemma_last_index_at(s.drop_last(), c, i);
    } else {
        assert(s.subrange(0, i) =~= s);
    }
}

} // verus!
