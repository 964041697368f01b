//! Text: ordering, searching and building strings character by character.
use vstd::prelude::*;
use vstd::std_specs::iter::IteratorSpec;
use vstd::string::*;

verus! {

/// `String::push` appends one character.
pub assume_specification[ String::push ](s: &mut String, c: char)
    ensures
        final(s)@ == old(s)@.push(c),
;

/// Whether `a` sorts before `b`: at the first character where they differ the
/// smaller code point wins, and a proper prefix sorts first.
pub open spec fn lex_lt(a: Seq<char>, b: Seq<char>) -> bool
    decreases a.len(),
{
    if b.len() == 0 {
        false
    } else if a.len() == 0 {
        true
    } else if a[0] != b[0] {
        a[0] < b[0]
    } else {
        lex_lt(a.drop_first(), b.drop_first())
    }
}

/// Nothing sorts before itself.
pub proof fn lemma_lex_irreflexive(a: Seq<char>)
    ensures
        !lex_lt(a, a),
    decreases a.len(),
{
    if a.len() > 0 {
        lemma_lex_irreflexive(a.drop_first());
    }
}

/// The order is transitive.
pub proof fn lemma_lex_transitive(a: Seq<char>, b: Seq<char>, c: Seq<char>)
    requires
        lex_lt(a, b),
        lex_lt(b, c),
    ensures
        lex_lt(a, c),
    decreases a.len(),
{
    if a.len() > 0 && a[0] == b[0] && b[0] == c[0] {
        lemma_lex_transitive(a.drop_first(), b.drop_first(), c.drop_first());
    }
}

/// Of two different texts one sorts before the other, and only one.
pub proof fn lemma_lex_total(a: Seq<char>, b: Seq<char>)
    ensures
        a == b || lex_lt(a, b) || lex_lt(b, a),
        !(lex_lt(a, b) && lex_lt(b, a)),
    decreases a.len(),
{
    if a.len() == 0 && b.len() == 0 {
        assert(a =~= b);
    } else if a.len() > 0 && b.len() > 0 && a[0] == b[0] {
        lemma_lex_total(a.drop_first(), b.drop_first());
        if a.drop_first() == b.drop_first() {
            assert(a =~= seq![a[0]] + a.drop_first());
            assert(b =~= seq![b[0]] + b.drop_first());
        }
    }
}

/// Whether `a` sorts before `b`.
pub fn less(a: &str, b: &str) -> (r: bool)
    ensures
        r == lex_lt(a@, b@),
{
    broadcast use group_string_axioms;
    let mut x = a.chars();
    let mut y = b.chars();
    loop
        invariant
            lex_lt(a@, b@) == lex_lt(x.remaining(), y.remaining()),
            x.decrease() is Some,
        decreases x.decrease()->0,
    {
        let p = x.next();
        let q = y.next();
        match (p, q) {
            (_, None) => {
                return false;
            },
            (None, Some(_)) => {
                return true;
            },
            (Some(c), Some(d)) => {
                if c != d {
                    return c < d;
                }
            },
        }
    }
}

/// Whether two texts hold the same characters.
pub fn same(a: &str, b: &str) -> (r: bool)
    ensures
        r == (a@ == b@),
{
    let r = !less(a, b) && !less(b, a);
    proof {
        lemma_lex_total(a@, b@);
        lemma_lex_irreflexive(a@);
    }
    r
}

/// The characters of `s` in order.
pub fn to_chars(s: &str) -> (v: Vec<char>)
    ensures
        v@ == s@,
{
    broadcast use group_string_axioms;
    let mut v: Vec<char> = Vec::new();
    for c in it: s.chars()
        invariant
            it.seq() == s@,
            v@ == s@.take(it.index() as int),
    {
        proof {
            assert(s@.take(it.index() as int + 1) =~= s@.take(it.index() as int).push(c));
        }
        v.push(c);
    }
    proof {
        assert(s@.take(s@.len() as int) =~= s@);
    }
    v
}

/// The text made of the characters `v[from..to]`.
pub fn from_chars(v: &Vec<char>, from: usize, to: usize) -> (s: String)
    requires
        from <= to <= v@.len(),
    ensures
        s@ == v@.subrange(from as int, to as int),
{
    let mut s = String::new();
    let mut i: usize = from;
    proof {
        assert(v@.subrange(from as int, from as int) =~= Seq::<char>::empty());
    }
    while i < to
        invariant
            from <= i <= to <= v@.len(),
            s@ == v@.subrange(from as int, i as int),
        decreases to - i,
    {
        s.push(v[i]);
        proof {
            assert(v@.subrange(from as int, i as int + 1) =~= v@.subrange(
                from as int,
                i as int,
            ).push(v@[i as int]));
        }
        i += 1;
    }
    s
}

/// The decimal digits of `n`, most significant first.
pub open spec fn decimal(n: nat) -> Seq<char>
    decreases n,
{
    if n < 10 {
        seq![digit(n)]
    } else {
        decimal(n / 10).push(digit(n % 10))
    }
}

/// The character for a single decimal digit.
pub open spec fn digit(d: nat) -> char {
    ((48 + d) as u8) as char
}

/// Append the decimal digits of `n`.
pub fn push_decimal(s: &mut String, n: u64)
    ensures
        final(s)@ == old(s)@ + decimal(n as nat),
    decreases n,
{
    if n >= 10 {
        push_decimal(s, n / 10);
    }
    let d: u8 = (n % 10) as u8;
    s.push((48u8 + d) as char);
    proof {
        assert(s@ =~= old(s)@ + decimal(n as nat));
    }
}

/// The characters of each text in turn.
pub open spec fn texts(v: Seq<String>) -> Seq<Seq<char>> {
    Seq::new(v.len(), |i: int| v[i]@)
}

/// The parts in order with `sep` between neighbours.
pub open spec fn joined(parts: Seq<Seq<char>>, sep: Seq<char>) -> Seq<char>
    decreases parts.len(),
{
    if parts.len() == 0 {
        Seq::empty()
    } else if parts.len() == 1 {
        parts[0]
    } else {
        joined(parts.drop_last(), sep) + sep + parts.last()
    }
}

/// Join `parts` with `sep` between neighbours.
pub fn join(parts: &Vec<String>, sep: &str) -> (s: String)
    ensures
        s@ == joined(texts(parts@), sep@),
{
    let mut s = String::new();
    let mut i: usize = 0;
    while i < parts.len()
        invariant
            i <= parts@.len(),
            s@ == joined(texts(parts@).take(i as int), sep@),
        decreases parts@.len() - i,
    {
        if i > 0 {
            s.append(sep);
        }
        s.append(parts[i].as_str());
        proof {
            let t = texts(parts@);
            assert(t.take(i as int + 1).drop_last() =~= t.take(i as int));
            assert(t.take(i as int + 1).last() == parts@[i as int]@);
            if i == 0 {
                assert(t.take(0) =~= Seq::<Seq<char>>::empty());
                assert(s@ =~= parts@[0]@);
            }
        }
        i += 1;
    }
    proof {
        assert(texts(parts@).take(i as int) =~= texts(parts@));
    }
    s
}

/// Copy every text of `v`.
pub fn copy_all(v: &Vec<String>) -> (r: Vec<String>)
    ensures
        r@ == v@,
{
    let mut r: Vec<String> = Vec::new();
    let mut i: usize = 0;
    while i < v.len()
        invariant
            i <= v@.len(),
            r@ == v@.take(i as int),
        decreases v@.len() - i,
    {
        r.push(v[i].clone());
        proof {
            assert(v@.take(i as int + 1) =~= v@.take(i as int).push(v@[i as int]));
        }
        i += 1;
    }
    proof {
        assert(v@.take(i as int) =~= v@);
    }
    r
}

/// Whether some text of `v` equals `s`.
pub fn holds(v: &Vec<String>, s: &str) -> (r: bool)
    ensures
        r == texts(v@).contains(s@),
{
    let mut i: usize = 0;
    while i < v.len()
        invariant
            i <= v@.len(),
            forall|j: int| 0 <= j < i ==> v@[j]@ != s@,
        decreases v@.len() - i,
    {
        if same(v[i].as_str(), s) {
            proof {
                assert(texts(v@)[i as int] == s@);
            }
            return true;
        }
        i += 1;
    }
    proof {
        assert forall|j: int| 0 <= j < texts(v@).len() implies texts(v@)[j] != s@ by {
            assert(texts(v@)[j] == v@[j]@);
        }
    }
    false
}

/// The position of the first `c` in `v` at or after `from`.
pub fn find_char(v: &Vec<char>, c: char, from: usize) -> (r: Option<usize>)
    requires
        from <= v@.len(),
    ensures
        match r {
            Some(i) => from <= i < v@.len() && v@[i as int] == c && forall|j: int|
                from <= j < i ==> v@[j] != c,
            None => forall|j: int| from <= j < v@.len() ==> v@[j] != c,
        },
{
    let mut i: usize = from;
    while i < v.len()
        invariant
            from <= i <= v@.len(),
            forall|j: int| from <= j < i ==> v@[j] != c,
        decreases v@.len() - i,
    {
        if v[i] == c {
            return Some(i);
        }
        i += 1;
    }
    None
}


/// Whether `c` is Unicode white space.
pub open spec fn is_white(c: char) -> bool {
    let n = c as u32;
    ||| 9 <= n <= 13
    ||| n == 32
    ||| n == 0x85
    ||| n == 0xa0
    ||| n == 0x1680
    ||| 0x2000 <= n <= 0x200a
    ||| n == 0x2028
    ||| n == 0x2029
    ||| n == 0x202f
    ||| n == 0x205f
    ||| n == 0x3000
}

/// Whether `c` is Unicode white space.
pub fn white(c: char) -> (r: bool)
    ensures
        r == is_white(c),
{
    let n: u32 = c as u32;
    (9 <= n && n <= 13) || n == 32 || n == 0x85 || n == 0xa0 || n == 0x1680 || (0x2000 <= n && n
        <= 0x200a) || n == 0x2028 || n == 0x2029 || n == 0x202f || n == 0x205f || n == 0x3000
}

/// `s` without leading white space.
pub open spec fn trimmed_start(s: Seq<char>) -> Seq<char>
    decreases s.len(),
{
    if s.len() > 0 && is_white(s[0]) {
        trimmed_start(s.drop_first())
    } else {
        s
    }
}

/// `s` without trailing white space.
pub open spec fn trimmed_end(s: Seq<char>) -> Seq<char>
    decreases s.len(),
{
    if s.len() > 0 && is_white(s.last()) {
        trimmed_end(s.drop_last())
    } else {
        s
    }
}

/// `s` without leading and trailing white space.
pub open spec fn trimmed(s: Seq<char>) -> Seq<char> {
    trimmed_end(trimmed_start(s))
}

/// `s` without leading and trailing white space.
pub fn trim(s: &str) -> (r: String)
    ensures
        r@ == trimmed(s@),
{
    let v = to_chars(s);
    let mut from: usize = 0;
    proof {
        assert(v@.skip(0) =~= v@);
    }
    while from < v.len() && white(v[from])
        invariant
            from <= v@.len(),
            trimmed_start(v@) == trimmed_start(v@.skip(from as int)),
        decreases v@.len() - from,
    {
        proof {
            assert(v@.skip(from as int).drop_first() =~= v@.skip(from as int + 1));
        }
        from += 1;
    }
    let mut to: usize = v.len();
    proof {
        assert(trimmed_start(v@) == v@.skip(from as int));
        assert(v@.skip(from as int) =~= v@.subrange(from as int, to as int));
    }
    while to > from && white(v[to - 1])
        invariant
            from <= to <= v@.len(),
            trimmed_end(trimmed_start(v@)) == trimmed_end(v@.subrange(from as int, to as int)),
        decreases to - from,
    {
        proof {
            assert(v@.subrange(from as int, to as int).drop_last() =~= v@.subrange(
                from as int,
                to as int - 1,
            ));
        }
        to -= 1;
    }
    from_chars(&v, from, to)
}

/// `s` cut at every `sep`.
pub open spec fn pieces(s: Seq<char>, sep: char) -> Seq<Seq<char>>
    decreases s.len(),
{
    if s.len() == 0 {
        seq![s]
    } else {
        let rest = pieces(s.drop_last(), sep);
        if s.last() == sep {
            rest.push(Seq::empty())
        } else {
            rest.drop_last().push(rest.last().push(s.last()))
        }
    }
}

proof fn lemma_pieces(s: Seq<char>, sep: char)
    ensures
        pieces(s, sep).len() > 0,
    decreases s.len(),
{
    if s.len() > 0 {
        lemma_pieces(s.drop_last(), sep);
    }
}

/// `s` cut at every `sep`.
pub fn cut(s: &str, sep: char) -> (r: Vec<String>)
    ensures
        texts(r@) == pieces(s@, sep),
{
    let v = to_chars(s);
    let mut done: Vec<String> = Vec::new();
    let mut current = String::new();
    let mut i: usize = 0;
    proof {
        assert(v@.take(0) =~= Seq::empty());
        assert(texts(done@).push(current@) =~= pieces(v@.take(0), sep));
    }
    while i < v.len()
        invariant
            i <= v@.len(),
            texts(done@).push(current@) == pieces(v@.take(i as int), sep),
        decreases v@.len() - i,
    {
        let ghost before = texts(done@).push(current@);
        let ghost list = done@;
        proof {
            assert(v@.take(i as int + 1).drop_last() =~= v@.take(i as int));
            assert(v@.take(i as int + 1).last() == v@[i as int]);
            assert(before.drop_last() =~= texts(done@));
        }
        if v[i] == sep {
            done.push(current);
            current = String::new();
            proof {
                assert(texts(done@) =~= before);
            }
        } else {
            current.push(v[i]);
        }
        i += 1;
    }
    let ghost before = texts(done@).push(current@);
    done.push(current);
    proof {
        assert(texts(done@) =~= before);
        assert(v@.take(i as int) =~= v@);
    }
    done
}

/// Whether `c` is an ASCII digit.
pub open spec fn is_digit(c: char) -> bool {
    48 <= c as u32 <= 57
}

/// How far a scan for the first number has come.
pub enum Scan {
    /// No digit yet.
    Before,
    /// Inside the number read so far.
    Inside(nat),
    /// Past the number.
    Past(nat),
}

/// The scan of `s` for its first run of digits.
pub open spec fn scan(s: Seq<char>) -> Scan
    decreases s.len(),
{
    if s.len() == 0 {
        Scan::Before
    } else {
        let c = s.last();
        match scan(s.drop_last()) {
            Scan::Before => if is_digit(c) {
                Scan::Inside((c as u32 - 48) as nat)
            } else {
                Scan::Before
            },
            Scan::Inside(n) => if is_digit(c) {
                Scan::Inside(n * 10 + (c as u32 - 48) as nat)
            } else {
                Scan::Past(n)
            },
            Scan::Past(n) => Scan::Past(n),
        }
    }
}

/// The first run of digits in `s` as a number, if there is one and it fits.
pub open spec fn first_number_in(s: Seq<char>) -> Option<u64> {
    match scan(s) {
        Scan::Before => None,
        Scan::Inside(n) => if n <= u64::MAX {
            Some(n as u64)
        } else {
            None
        },
        Scan::Past(n) => if n <= u64::MAX {
            Some(n as u64)
        } else {
            None
        },
    }
}

/// The first run of digits in `s` as a number, if there is one and it fits.
pub fn first_number(s: &str) -> (r: Option<u64>)
    ensures
        r == first_number_in(s@),
{
    let v = to_chars(s);
    assert(v@ == s@);
    let mut i: usize = 0;
    let mut started = false;
    let mut over = false;
    let mut value: u64 = 0;
    proof {
        assert(v@.take(0) =~= Seq::empty());
    }
    while i < v.len()
        invariant
            v@ == s@,
            i <= v@.len(),
            match scan(v@.take(i as int)) {
                Scan::Before => !started && !over && value == 0,
                Scan::Inside(n) => started && (over <==> n > u64::MAX) && (!over ==> value == n),
                Scan::Past(n) => false,
            },
        decreases v@.len() - i,
    {
        let c = v[i];
        let n: u32 = c as u32;
        proof {
            assert(v@.take(i as int + 1).drop_last() =~= v@.take(i as int));
            assert(v@.take(i as int + 1).last() == c);
        }
        if 48 <= n && n <= 57 {
            let d: u64 = (n - 48) as u64;
            started = true;
            if over {
            } else if value > (u64::MAX - d) / 10 {
                over = true;
                proof {
                    assert(value * 10 + d > u64::MAX) by (nonlinear_arith)
                        requires
                            value > (u64::MAX - d) / 10,
                            d <= 9,
                    ;
                }
            } else {
                value = value * 10 + d;
            }
        } else if started {
            proof {
                lemma_past(v@, i as int + 1);
                assert(v@.take(v@.len() as int) =~= v@);
            }
            return if over {
                None
            } else {
                Some(value)
            };
        }
        i += 1;
    }
    proof {
        assert(v@.take(i as int) =~= v@);
    }
    if started && !over {
        Some(value)
    } else {
        None
    }
}

proof fn lemma_past(s: Seq<char>, i: int)
    requires
        0 <= i <= s.len(),
        scan(s.take(i)) is Past,
    ensures
        scan(s.take(s.len() as int)) == scan(s.take(i)),
    decreases s.len() - i,
{
    if i < s.len() {
        assert(s.take(i + 1).drop_last() =~= s.take(i));
        lemma_past(s, i + 1);
    }
}

/// The signed decimal form of `n`.
pub open spec fn signed_decimal(n: int) -> Seq<char> {
    if n < 0 {
        "-"@ + decimal((-n) as nat)
    } else {
        decimal(n as nat)
    }
}

/// Append the signed decimal form of `n`.
pub fn push_signed(s: &mut String, n: i32)
    ensures
        final(s)@ == old(s)@ + signed_decimal(n as int),
{
    if n < 0 {
        s.append("-");
        let m: i64 = n as i64;
        push_decimal(s, (-m) as u64);
        proof {
            assert(s@ =~= old(s)@ + signed_decimal(n as int));
        }
    } else {
        push_decimal(s, n as u64);
    }
}

/// The position in `s` just past the first occurrence of `needle`.
pub open spec fn found_at(s: Seq<char>, needle: Seq<char>, at: int) -> bool {
    &&& 0 <= at
    &&& at + needle.len() <= s.len()
    &&& s.subrange(at, at + needle.len()) == needle
}

/// What follows the first occurrence of `needle` in `s`, searching from `from`.
pub open spec fn after_first(s: Seq<char>, needle: Seq<char>, from: int) -> Option<Seq<char>>
    decreases s.len() + 1 - from,
{
    if from < 0 || from > s.len() {
        None
    } else if found_at(s, needle, from) {
        Some(s.skip(from + needle.len()))
    } else {
        after_first(s, needle, from + 1)
    }
}

/// What follows the first occurrence of `needle` in `s`.
pub fn after(s: &str, needle: &str) -> (r: Option<String>)
    ensures
        match r {
            Some(rest) => after_first(s@, needle@, 0) == Some(rest@),
            None => after_first(s@, needle@, 0) is None,
        },
{
    let v = to_chars(s);
    let w = to_chars(needle);
    let total: usize = v.len();
    let mut from: usize = 0;
    while from <= v.len() && w.len() <= v.len() - from
        invariant
            v@ == s@,
            w@ == needle@,
            total == v@.len(),
            from <= v@.len() + 1,
            from <= v@.len() || w@.len() == 0,
            after_first(s@, needle@, 0) == after_first(s@, needle@, from as int),
        decreases v@.len() + 1 - from,
    {
        let mut k: usize = 0;
        let mut matching = true;
        while matching && k < w.len()
            invariant
                v@ == s@,
                w@ == needle@,
                total == v@.len(),
                from + w@.len() <= total,
                k <= w@.len(),
                matching ==> forall|j: int| 0 <= j < k ==> v@[from + j] == w@[j],
                !matching ==> !found_at(s@, needle@, from as int),
            decreases w@.len() - k, matching as int,
        {
            if v[from + k] != w[k] {
                matching = false;
                proof {
                    assert(s@.subrange(from as int, from + w@.len())[k as int] == v@[from + k]);
                }
            } else {
                k += 1;
            }
        }
        if matching {
            let rest = from_chars(&v, from + w.len(), v.len());
            proof {
                assert(s@.subrange(from as int, from + w@.len()) =~= needle@);
                assert(rest@ =~= s@.skip(from + needle@.len()));
            }
            return Some(rest);
        }
        if from == v.len() {
            proof {
                assert(after_first(s@, needle@, from as int + 1) is None);
            }
            return None;
        }
        from += 1;
    }
    proof {
        lemma_not_after(s@, needle@, from as int);
    }
    None
}

proof fn lemma_not_after(s: Seq<char>, needle: Seq<char>, from: int)
    requires
        0 <= from,
        from + needle.len() > s.len(),
    ensures
        after_first(s, needle, from) is None,
    decreases s.len() + 1 - from,
{
    if from <= s.len() {
        lemma_not_after(s, needle, from + 1);
    }
}

/// A number is written with the ten digits, the last one for its units and those
/// before it for its tens, without a leading zero.
pub proof fn law_decimal_digits(n: nat)
    ensures
        decimal(n).len() > 0,
        decimal(n).last() as u32 == 48 + n % 10,
        n >= 10 ==> decimal(n).drop_last() == decimal(n / 10),
        n < 10 ==> decimal(n).len() == 1,
        n > 0 ==> decimal(n)[0] as u32 != 48,
        forall|i: int| 0 <= i < decimal(n).len() ==> 48 <= (#[trigger] decimal(n)[i]) as u32 <= 57,
    decreases n,
{
    let last = (48 + n % 10) as u8;
    assert((last as char) as u32 == last as u32);
    if n >= 10 {
        law_decimal_digits(n / 10);
        let front = decimal(n / 10);
        assert(decimal(n).drop_last() =~= front);
        assert(decimal(n)[0] == front[0]);
        assert forall|i: int| 0 <= i < decimal(n).len() implies 48 <= (
        #[trigger] decimal(n)[i]) as u32 <= 57 by {
            if i < front.len() {
                assert(decimal(n)[i] == front[i]);
            }
        }
    }
}

/// A number below zero is written with a minus before its digits, any other without.
pub proof fn law_signed_digits(n: int)
    ensures
        n < 0 ==> signed_decimal(n) == seq!['-'] + decimal((-n) as nat),
        n >= 0 ==> signed_decimal(n) == decimal(n as nat),
{
    reveal_strlit("-");
    if n < 0 {
        assert("-"@ =~= seq!['-']);
    }
}

/// White space is the tab, the line breaks, the space and the other separators of
/// Unicode; nothing printable of ASCII is.
pub proof fn law_white_space(c: char)
    ensures
        c as u32 <= 127 ==> (is_white(c) <==> (c == ' ' || c == '\t' || c == '\n' || c == '\r'
            || c as u32 == 11 || c as u32 == 12)),
        c as u32 > 127 ==> (is_white(c) <==> (c as u32 == 0x85 || c as u32 == 0xa0 || c as u32
            == 0x1680 || 0x2000 <= c as u32 <= 0x200a || c as u32 == 0x2028 || c as u32 == 0x2029
            || c as u32 == 0x202f || c as u32 == 0x205f || c as u32 == 0x3000)),
{
    assert(' ' as u32 == 32);
    assert('\t' as u32 == 9);
    assert('\n' as u32 == 10);
    assert('\r' as u32 == 13);
    if c as u32 == 32 {
        assert(c == ' ');
    } else if c as u32 == 9 {
        assert(c == '\t');
    } else if c as u32 == 10 {
        assert(c == '\n');
    } else if c as u32 == 13 {
        assert(c == '\r');
    }
}

/// Where a text begins and ends once trimmed.
proof fn lemma_trimmed_start(s: Seq<char>) -> (from: int)
    ensures
        0 <= from <= s.len(),
        trimmed_start(s) == s.skip(from),
        forall|i: int| 0 <= i < from ==> is_white(#[trigger] s[i]),
        from < s.len() ==> !is_white(s[from]),
    decreases s.len(),
{
    if s.len() > 0 && is_white(s[0]) {
        let rest = s.drop_first();
        let k = lemma_trimmed_start(rest);
        assert(rest.skip(k) =~= s.skip(k + 1));
        assert forall|i: int| 0 <= i < k + 1 implies is_white(#[trigger] s[i]) by {
            if i > 0 {
                assert(rest[i - 1] == s[i]);
            }
        }
        if k < rest.len() {
            assert(rest[k] == s[k + 1]);
        }
        k + 1
    } else {
        assert(s.skip(0) =~= s);
        0
    }
}

proof fn lemma_trimmed_end(s: Seq<char>) -> (to: int)
    ensures
        0 <= to <= s.len(),
        trimmed_end(s) == s.take(to),
        forall|i: int| to <= i < s.len() ==> is_white(#[trigger] s[i]),
        to > 0 ==> !is_white(s[to - 1]),
    decreases s.len(),
{
    if s.len() > 0 && is_white(s.last()) {
        let rest = s.drop_last();
        let k = lemma_trimmed_end(rest);
        assert(rest.take(k) =~= s.take(k));
        assert forall|i: int| k <= i < s.len() implies is_white(#[trigger] s[i]) by {
            if i < rest.len() {
                assert(rest[i] == s[i]);
            }
        }
        k
    } else {
        assert(s.take(s.len() as int) =~= s);
        s.len() as int
    }
}

/// Trimming takes white space off both ends and nothing else: the text is what was
/// taken off in front, the trimmed text, and what was taken off behind, and the
/// trimmed text neither begins nor ends with white space.
pub proof fn law_trimming_takes_white_space_off(s: Seq<char>) -> (ends: (int, int))
    ensures
        0 <= ends.0 <= ends.1 <= s.len(),
        trimmed(s) == s.subrange(ends.0, ends.1),
        forall|i: int| 0 <= i < ends.0 ==> is_white(#[trigger] s[i]),
        forall|i: int| ends.1 <= i < s.len() ==> is_white(#[trigger] s[i]),
        ends.0 < ends.1 ==> !is_white(s[ends.0]) && !is_white(s[ends.1 - 1]),
{
    let from = lemma_trimmed_start(s);
    let rest = s.skip(from);
    let to = lemma_trimmed_end(rest);
    assert(rest.take(to) =~= s.subrange(from, from + to));
    assert forall|i: int| from + to <= i < s.len() implies is_white(#[trigger] s[i]) by {
        assert(rest[i - from] == s[i]);
    }
    if to > 0 {
        assert(rest[to - 1] == s[from + to - 1]);
    }
    (from, from + to)
}

/// Cutting a text loses nothing: its pieces, put together with the separator between
/// them, are the text again, and no piece holds a separator.
pub proof fn law_pieces_put_together(s: Seq<char>, sep: char)
    ensures
        pieces(s, sep).len() > 0,
        joined(pieces(s, sep), seq![sep]) == s,
        forall|i: int|
            0 <= i < pieces(s, sep).len() ==> !(#[trigger] pieces(s, sep)[i]).contains(sep),
    decreases s.len(),
{
    let all = pieces(s, sep);
    if s.len() == 0 {
        assert(all.drop_last() =~= Seq::empty());
        assert(joined(all, seq![sep]) =~= s);
    } else {
        let front = s.drop_last();
        law_pieces_put_together(front, sep);
        let rest = pieces(front, sep);
        if s.last() == sep {
            assert(all.drop_last() =~= rest);
            assert(joined(all, seq![sep]) =~= s);
            assert forall|i: int| 0 <= i < all.len() implies !(#[trigger] all[i]).contains(sep) by {
                if i < rest.len() {
                    assert(all[i] == rest[i]);
                }
            }
        } else {
            let last = rest.last().push(s.last());
            assert(all.drop_last() =~= rest.drop_last());
            assert(all.last() == last);
            if rest.len() == 1 {
                assert(joined(all, seq![sep]) == last);
                assert(joined(rest, seq![sep]) == rest.last());
                assert(last =~= s);
            } else {
                let head = joined(rest.drop_last(), seq![sep]) + seq![sep];
                assert(front == head + rest.last());
                assert(joined(all, seq![sep]) == head + last);
                assert(s =~= front.push(s.last()));
                assert(head + last =~= (head + rest.last()).push(s.last()));
            }
            assert forall|i: int| 0 <= i < all.len() implies !(#[trigger] all[i]).contains(sep) by {
                if i < rest.len() - 1 {
                    assert(all[i] == rest[i]);
                } else {
                    assert(rest[rest.len() - 1] == rest.last());
                    assert(all[i] == last);
                    if last.contains(sep) {
                        let k = last.index_of(sep);
                        if k < rest.last().len() {
                            assert(rest.last()[k] == sep);
                        }
                    }
                }
            }
        }
    }
}

/// Joining puts the separator between the parts and nowhere else.
pub proof fn law_joining_parts(parts: Seq<Seq<char>>, part: Seq<char>, sep: Seq<char>)
    ensures
        joined(Seq::empty(), sep) == Seq::<char>::empty(),
        joined(seq![part], sep) == part,
        parts.len() > 0 ==> joined(parts.push(part), sep) == joined(parts, sep) + sep + part,
{
    assert(seq![part].drop_last() =~= Seq::empty());
    assert(parts.push(part).drop_last() =~= parts);
}

/// What follows the first occurrence of a text is what stands behind it, and there is
/// no earlier one; where there is no occurrence nothing follows.
pub proof fn law_what_follows_the_first(s: Seq<char>, needle: Seq<char>, from: int)
    requires
        0 <= from <= s.len() + 1,
    ensures
        match after_first(s, needle, from) {
            Some(rest) => exists|at: int|
                from <= at && at + needle.len() + rest.len() == s.len() && s.skip(
                    at + needle.len(),
                ) == rest && #[trigger] s.subrange(at, at + needle.len()) == needle && forall|k: int|
                    from <= k < at ==> #[trigger] s.subrange(k, k + needle.len()) != needle,
            None => forall|k: int|
                from <= k && k + needle.len() <= s.len() ==> #[trigger] s.subrange(
                    k,
                    k + needle.len(),
                ) != needle,
        },
    decreases s.len() + 1 - from,
{
    if from > s.len() {
    } else if found_at(s, needle, from) {
        assert(s.subrange(from, from + needle.len()) == needle);
    } else {
        law_what_follows_the_first(s, needle, from + 1);
        match after_first(s, needle, from + 1) {
            Some(rest) => {
                let at = choose|at: int|
                    from + 1 <= at && at + needle.len() + rest.len() == s.len() && s.skip(
                        at + needle.len(),
                    ) == rest && #[trigger] s.subrange(at, at + needle.len()) == needle && forall|
                        k: int,
                    |
                        from + 1 <= k < at ==> #[trigger] s.subrange(k, k + needle.len()) != needle;
                assert forall|k: int| from <= k < at implies #[trigger] s.subrange(
                    k,
                    k + needle.len(),
                ) != needle by {
                    if k == from {
                        assert(from + needle.len() <= s.len());
                    }
                }
            },
            None => {},
        }
    }
}

/// The number that a run of digits stands for.
pub open spec fn number(digits: Seq<char>) -> nat
    decreases digits.len(),
{
    if digits.len() == 0 {
        0
    } else {
        number(digits.drop_last()) * 10 + (digits.last() as u32 - 48) as nat
    }
}

/// The digits of a number stand for it.
pub proof fn law_decimal_reads_back(n: nat)
    ensures
        number(decimal(n)) == n,
    decreases n,
{
    law_decimal_digits(n);
    if n >= 10 {
        law_decimal_reads_back(n / 10);
    } else {
        assert(decimal(n).drop_last() =~= Seq::empty());
        assert(number(decimal(n).drop_last()) == 0);
    }
}

proof fn lemma_scan_before(s: Seq<char>)
    requires
        forall|i: int| 0 <= i < s.len() ==> !(48 <= (#[trigger] s[i]) as u32 <= 57),
    ensures
        scan(s) == Scan::Before,
    decreases s.len(),
{
    if s.len() > 0 {
        assert forall|i: int| 0 <= i < s.drop_last().len() implies !(48 <= (
        #[trigger] s.drop_last()[i]) as u32 <= 57) by {
            assert(s.drop_last()[i] == s[i]);
        }
        lemma_scan_before(s.drop_last());
        assert(s[s.len() - 1] == s.last());
    }
}

proof fn lemma_scan_inside(before: Seq<char>, digits: Seq<char>)
    requires
        forall|i: int| 0 <= i < before.len() ==> !(48 <= (#[trigger] before[i]) as u32 <= 57),
        digits.len() > 0,
        forall|i: int| 0 <= i < digits.len() ==> 48 <= (#[trigger] digits[i]) as u32 <= 57,
    ensures
        scan(before + digits) == Scan::Inside(number(digits)),
    decreases digits.len(),
{
    let whole = before + digits;
    let front = digits.drop_last();
    assert(whole.drop_last() =~= before + front);
    assert(whole.last() == digits[digits.len() - 1]);
    if front.len() == 0 {
        assert(before + front =~= before);
        lemma_scan_before(before);
        assert(number(front) == 0);
    } else {
        assert forall|i: int| 0 <= i < front.len() implies 48 <= (#[trigger] front[i]) as u32
            <= 57 by {
            assert(front[i] == digits[i]);
        }
        lemma_scan_inside(before, front);
    }
}

proof fn lemma_scan_past(s: Seq<char>, rest: Seq<char>, n: nat)
    requires
        scan(s) == Scan::Inside(n),
        rest.len() > 0,
        !(48 <= rest[0] as u32 <= 57),
    ensures
        scan(s + rest) == Scan::Past(n),
    decreases rest.len(),
{
    let whole = s + rest;
    let front = rest.drop_last();
    assert(whole.drop_last() =~= s + front);
    assert(whole.last() == rest.last());
    if front.len() == 0 {
        assert(s + front =~= s);
        assert(rest.last() == rest[0]);
    } else {
        assert(front[0] == rest[0]);
        lemma_scan_past(s, front, n);
    }
}

/// The first number in a text is the one its first run of digits stands for, where it
/// fits; a text without digits holds none.
pub proof fn law_the_first_number(before: Seq<char>, digits: Seq<char>, rest: Seq<char>)
    requires
        forall|i: int| 0 <= i < before.len() ==> !(48 <= (#[trigger] before[i]) as u32 <= 57),
        forall|i: int| 0 <= i < digits.len() ==> 48 <= (#[trigger] digits[i]) as u32 <= 57,
        digits.len() > 0,
        rest.len() > 0 ==> !(48 <= rest[0] as u32 <= 57),
    ensures
        first_number_in(before) is None,
        first_number_in(before + digits + rest) == if number(digits) <= u64::MAX {
            Some(number(digits) as u64)
        } else {
            None
        },
{
    lemma_scan_before(before);
    lemma_scan_inside(before, digits);
    if rest.len() == 0 {
        assert(before + digits + rest =~= before + digits);
    } else {
        lemma_scan_past(before + digits, rest, number(digits));
    }
}

/// One text sorts before another exactly if it is a proper beginning of it, or holds
/// the smaller code point where they first differ.
pub proof fn law_texts_sort_by_their_first_difference(a: Seq<char>, b: Seq<char>, k: int)
    requires
        0 <= k <= a.len(),
        k <= b.len(),
        a.take(k) == b.take(k),
        k < a.len() && k < b.len() ==> a[k] != b[k],
    ensures
        lex_lt(a, b) <==> k < b.len() && (k == a.len() || a[k] < b[k]),
    decreases k,
{
    if k > 0 {
        let c = a.drop_first();
        let d = b.drop_first();
        assert(a.take(k)[0] == a[0]);
        assert(b.take(k)[0] == b[0]);
        assert(c.take(k - 1) =~= a.take(k).drop_first());
        assert(d.take(k - 1) =~= b.take(k).drop_first());
        law_texts_sort_by_their_first_difference(c, d, k - 1);
        if k < a.len() {
            assert(c[k - 1] == a[k]);
        }
        if k < b.len() {
            assert(d[k - 1] == b[k]);
        }
    }
}

/// The texts of several strings are their characters, one after the other.
pub proof fn law_texts_keep_their_order(v: Seq<String>, i: int)
    requires
        0 <= i < v.len(),
    ensures
        texts(v).len() == v.len(),
        texts(v)[i] == v[i]@,
{
}

} // verus!
