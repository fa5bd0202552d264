use vstd::prelude::*;

verus! {

// Character-level helpers ----------------------------------------------------

/// The ASCII-lowercase image of one character: the letters 'A' to 'Z' are
/// shifted into 'a' to 'z', every other character stays as it is.
pub open spec fn ascii_lower_char(c: char) -> char {
    if 'A' <= c && c <= 'Z' {
        ((c as u32) + 32) as char
    } else {
        c
    }
}

/// The ASCII-lowercase image of a whole character sequence.
pub open spec fn lower_seq(s: Seq<char>) -> Seq<char> {
    s.map_values(|c: char| ascii_lower_char(c))
}

pub open spec fn is_ascii_digit(c: char) -> bool {
    '0' <= c && c <= '9'
}

fn lower_letter(c: char) -> (r: String)
    requires
        'A' <= c && c <= 'Z',
    ensures
        r@ =~= seq![ascii_lower_char(c)],
{
    proof {
        reveal_strlit("a");
        reveal_strlit("b");
        reveal_strlit("c");
        reveal_strlit("d");
        reveal_strlit("e");
        reveal_strlit("f");
        reveal_strlit("g");
        reveal_strlit("h");
        reveal_strlit("i");
        reveal_strlit("j");
        reveal_strlit("k");
        reveal_strlit("l");
        reveal_strlit("m");
        reveal_strlit("n");
        reveal_strlit("o");
        reveal_strlit("p");
        reveal_strlit("q");
        reveal_strlit("r");
        reveal_strlit("s");
        reveal_strlit("t");
        reveal_strlit("u");
        reveal_strlit("v");
        reveal_strlit("w");
        reveal_strlit("x");
        reveal_strlit("y");
        reveal_strlit("z");
    }
    let s = if c == 'A' {
        "a"
    } else if c == 'B' {
        "b"
    } else if c == 'C' {
        "c"
    } else if c == 'D' {
        "d"
    } else if c == 'E' {
        "e"
    } else if c == 'F' {
        "f"
    } else if c == 'G' {
        "g"
    } else if c == 'H' {
        "h"
    } else if c == 'I' {
        "i"
    } else if c == 'J' {
        "j"
    } else if c == 'K' {
        "k"
    } else if c == 'L' {
        "l"
    } else if c == 'M' {
        "m"
    } else if c == 'N' {
        "n"
    } else if c == 'O' {
        "o"
    } else if c == 'P' {
        "p"
    } else if c == 'Q' {
        "q"
    } else if c == 'R' {
        "r"
    } else if c == 'S' {
        "s"
    } else if c == 'T' {
        "t"
    } else if c == 'U' {
        "u"
    } else if c == 'V' {
        "v"
    } else if c == 'W' {
        "w"
    } else if c == 'X' {
        "x"
    } else if c == 'Y' {
        "y"
    } else {
        "z"
    };
    String::from_str(s)
}

/// Builds the ASCII-lowercase copy of a string.
pub fn ascii_lowercase(s: &String) -> (r: String)
    ensures
        r@ == lower_seq(s@),
{
    let n = s.as_str().unicode_len();
    let mut r = String::new();
    let mut i: usize = 0;
    while i < n
        invariant
            i <= n,
            n == s@.len(),
            r@ =~= lower_seq(s@).take(i as int),
        decreases n - i,
    {
        let c = s.as_str().get_char(i);
        if 'A' <= c && c <= 'Z' {
            let piece = lower_letter(c);
            r.append(piece.as_str());
        } else {
            let piece = s.as_str().substring_char(i, i + 1);
            r.append(piece);
        }
        assert(r@ =~= lower_seq(s@).take(i + 1 as int));
        i = i + 1;
    }
    assert(lower_seq(s@).take(n as int) =~= lower_seq(s@));
    r
}

// Splitting on dots ----------------------------------------------------------

/// The views of a vector of strings.
pub open spec fn views_of(v: Seq<String>) -> Seq<Seq<char>> {
    v.map_values(|s: String| s@)
}

/// The segments of a character sequence, cut at every dot.  A sequence with
/// no dot is one segment; every dot separates two (possibly empty) segments.
pub open spec fn split_dots_spec(s: Seq<char>) -> Seq<Seq<char>>
    decreases s.len(),
{
    if s.len() == 0 {
        seq![Seq::<char>::empty()]
    } else if s[0] == '.' {
        seq![Seq::<char>::empty()] + split_dots_spec(s.skip(1))
    } else {
        let rest = split_dots_spec(s.skip(1));
        seq![seq![s[0]] + rest[0]] + rest.skip(1)
    }
}

pub proof fn lemma_split_dots_nonempty(s: Seq<char>)
    ensures
        split_dots_spec(s).len() >= 1,
    decreases s.len(),
{
    if s.len() == 0 {
    } else if s[0] == '.' {
        lemma_split_dots_nonempty(s.skip(1));
    } else {
        lemma_split_dots_nonempty(s.skip(1));
    }
}

/// A character sequence without any dot.
pub open spec fn dot_free(s: Seq<char>) -> bool {
    forall|j: int| 0 <= j < s.len() ==> #[trigger] s[j] != '.'
}

/// A list of segments, none of which contains a dot.
pub open spec fn dot_free_all(a: Seq<Seq<char>>) -> bool {
    forall|i: int| 0 <= i < a.len() ==> dot_free(#[trigger] a[i])
}

/// No segment of a split contains a dot.
pub proof fn lemma_split_dots_segments_dot_free(s: Seq<char>)
    ensures
        dot_free_all(split_dots_spec(s)),
    decreases s.len(),
{
    if s.len() == 0 {
        assert forall|i: int| 0 <= i < split_dots_spec(s).len() implies dot_free(
            #[trigger] split_dots_spec(s)[i],
        ) by {
            assert(split_dots_spec(s)[i] == Seq::<char>::empty());
        }
    } else if s[0] == '.' {
        lemma_split_dots_nonempty(s.skip(1));
        lemma_split_dots_segments_dot_free(s.skip(1));
        let rest = split_dots_spec(s.skip(1));
        let whole = split_dots_spec(s);
        assert forall|i: int| 0 <= i < whole.len() implies dot_free(#[trigger] whole[i]) by {
            if i == 0 {
                assert(whole[0] == Seq::<char>::empty());
            } else {
                assert(whole[i] == rest[i - 1]);
                assert(dot_free(rest[i - 1]));
            }
        }
    } else {
        lemma_split_dots_nonempty(s.skip(1));
        lemma_split_dots_segments_dot_free(s.skip(1));
        let rest = split_dots_spec(s.skip(1));
        let whole = split_dots_spec(s);
        assert forall|i: int| 0 <= i < whole.len() implies dot_free(#[trigger] whole[i]) by {
            if i == 0 {
                assert(dot_free(rest[0]));
                assert(forall|j: int| 0 <= j < whole[0].len() - 1 ==> whole[0][j + 1] == rest[0][j]);
                assert(whole[0][0] == s[0]);
                assert forall|j: int| 0 <= j < whole[0].len() implies #[trigger] whole[0][j]
                    != '.' by {
                    if j > 0 {
                        assert(whole[0][j] == rest[0][j - 1]);
                    }
                }
            } else {
                assert(whole[i] == rest[i]);
                assert(dot_free(rest[i]));
            }
        }
    }
}

/// Splitting commutes with ASCII lowercasing: the lowered string has the same
/// segment layout, with each segment lowered.
pub proof fn lemma_split_lower_commutes(s: Seq<char>)
    ensures
        split_dots_spec(lower_seq(s)) =~~= split_dots_spec(s).map_values(
            |seg: Seq<char>| lower_seq(seg),
        ),
    decreases s.len(),
{
    let ls = lower_seq(s);
    if s.len() == 0 {
        assert(ls.len() == 0);
    } else {
        lemma_split_dots_nonempty(s.skip(1));
        lemma_split_lower_commutes(s.skip(1));
        assert(ls.skip(1) =~= lower_seq(s.skip(1)));
        if s[0] == '.' {
            assert(ls[0] == '.');
        } else {
            assert(ls[0] != '.');
            assert(ls[0] == ascii_lower_char(s[0]));
            let rest = split_dots_spec(s.skip(1));
            let lrest = split_dots_spec(lower_seq(s.skip(1)));
            assert(lrest =~~= rest.map_values(|seg: Seq<char>| lower_seq(seg)));
            assert(lrest[0] =~= lower_seq(rest[0]));
            assert(seq![ls[0]] + lrest[0] =~= lower_seq(seq![s[0]] + rest[0]));
        }
    }
}

/// Cuts a string into its dot-separated segments.
pub fn split_dots(s: &String) -> (r: Vec<String>)
    ensures
        views_of(r@) == split_dots_spec(s@),
        r@.len() >= 1,
{
    let n = s.as_str().unicode_len();
    let mut segs: Vec<String> = Vec::new();
    let mut cur = String::new();
    let mut i: usize = 0;
    proof {
        assert(s@.skip(0) =~= s@);
    }
    while i < n
        invariant
            i <= n,
            n == s@.len(),
            split_dots_spec(s@) =~~= views_of(segs@) + seq![cur@ + split_dots_spec(s@.skip(i as int))[0]]
                + split_dots_spec(s@.skip(i as int)).skip(1),
        decreases n - i,
    {
        let ghost rest_i = s@.skip(i as int);
        let ghost rest_next = s@.skip(i + 1 as int);
        proof {
            assert(rest_i.len() == n - i);
            assert(rest_i[0] == s@[i as int]);
            assert(rest_i.skip(1) =~= rest_next);
            lemma_split_dots_nonempty(rest_next);
        }
        let c = s.as_str().get_char(i);
        if c == '.' {
            proof {
                assert(split_dots_spec(rest_i) == seq![Seq::<char>::empty()] + split_dots_spec(
                    rest_i.skip(1),
                ));
            }
            segs.push(cur);
            cur = String::new();
            proof {
                assert(views_of(segs@) =~= views_of(segs@.drop_last()).push(segs@.last()@));
                assert(split_dots_spec(s@) =~~= views_of(segs@) + seq![cur@ + split_dots_spec(
                    rest_next,
                )[0]] + split_dots_spec(rest_next).skip(1));
            }
        } else {
            proof {
                let rest = split_dots_spec(rest_next);
                assert(split_dots_spec(rest_i) == seq![seq![rest_i[0]] + split_dots_spec(
                    rest_i.skip(1),
                )[0]] + split_dots_spec(rest_i.skip(1)).skip(1));
                assert(split_dots_spec(rest_i)[0] =~= seq![s@[i as int]] + rest[0]);
            }
            let piece = s.as_str().substring_char(i, i + 1);
            cur.append(piece);
            proof {
                assert(split_dots_spec(s@) =~~= views_of(segs@) + seq![cur@ + split_dots_spec(
                    rest_next,
                )[0]] + split_dots_spec(rest_next).skip(1));
            }
        }
        i = i + 1;
    }
    proof {
        assert(s@.skip(n as int) =~= Seq::<char>::empty());
        assert(split_dots_spec(Seq::<char>::empty()) =~~= seq![Seq::<char>::empty()]);
    }
    segs.push(cur);
    proof {
        assert(views_of(segs@) =~= views_of(segs@.drop_last()).push(segs@.last()@));
        assert(views_of(segs@) =~~= split_dots_spec(s@));
    }
    segs
}

// Joining with dots ----------------------------------------------------------

/// Glues segments back together with a dot between each pair of neighbours.
pub open spec fn join_dots_spec(parts: Seq<Seq<char>>) -> Seq<char>
    decreases parts.len(),
{
    if parts.len() == 0 {
        Seq::empty()
    } else if parts.len() == 1 {
        parts[0]
    } else {
        parts[0] + seq!['.'] + join_dots_spec(parts.skip(1))
    }
}

pub proof fn lemma_join_push(parts: Seq<Seq<char>>, x: Seq<char>)
    requires
        parts.len() >= 1,
    ensures
        join_dots_spec(parts.push(x)) =~= join_dots_spec(parts) + seq!['.'] + x,
    decreases parts.len(),
{
    let p = parts.push(x);
    if parts.len() == 1 {
        assert(p.skip(1) =~= seq![x]);
        assert(join_dots_spec(seq![x]) == x);
        assert(join_dots_spec(p) == p[0] + seq!['.'] + join_dots_spec(p.skip(1)));
        assert(p[0] == parts[0]);
        assert(join_dots_spec(parts) == parts[0]);
    } else {
        assert(p.skip(1) =~= parts.skip(1).push(x));
        lemma_join_push(parts.skip(1), x);
        assert(join_dots_spec(p) == p[0] + seq!['.'] + join_dots_spec(p.skip(1)));
        assert(join_dots_spec(parts) == parts[0] + seq!['.'] + join_dots_spec(parts.skip(1)));
    }
}

/// Joins segments with dots.
pub fn join_dots(parts: &Vec<String>) -> (r: String)
    ensures
        r@ == join_dots_spec(views_of(parts@)),
{
    if parts.len() == 0 {
        let r = String::new();
        proof {
            assert(views_of(parts@).len() == 0);
        }
        return r;
    }
    let mut r = parts[0].clone();
    let mut i: usize = 1;
    proof {
        assert(views_of(parts@).take(1) =~= seq![parts@[0]@]);
    }
    while i < parts.len()
        invariant
            1 <= i <= parts@.len(),
            r@ == join_dots_spec(views_of(parts@).take(i as int)),
        decreases parts@.len() - i,
    {
        r.append(".");
        r.append(parts[i].as_str());
        proof {
            reveal_strlit(".");
            assert("."@ =~= seq!['.']);
            lemma_join_push(views_of(parts@).take(i as int), parts@[i as int]@);
            assert(views_of(parts@).take(i + 1 as int) =~= views_of(parts@).take(i as int).push(
                parts@[i as int]@,
            ));
        }
        i = i + 1;
    }
    proof {
        assert(views_of(parts@).take(parts@.len() as int) =~= views_of(parts@));
    }
    r
}

// Decimal volume counters ----------------------------------------------------

/// The character for one decimal digit.
pub open spec fn digit_char(d: nat) -> char
    recommends
        d < 10,
{
    (('0' as u32) + d) as char
}

/// The decimal digits of a number, most significant first.
pub open spec fn dec_digits(n: nat) -> Seq<char>
    decreases n,
{
    if n < 10 {
        seq![digit_char(n)]
    } else {
        dec_digits(n / 10).push(digit_char(n % 10))
    }
}

pub open spec fn zeros(k: nat) -> Seq<char> {
    Seq::new(k, |i: int| '0')
}

/// Digits left-padded with zeros up to `w` characters; longer digit strings
/// are kept whole.
pub open spec fn zero_pad(digits: Seq<char>, w: nat) -> Seq<char> {
    if digits.len() >= w {
        digits
    } else {
        zeros((w - digits.len()) as nat) + digits
    }
}

pub proof fn lemma_dec_digits_are_digits(n: nat)
    ensures
        dec_digits(n).len() >= 1,
        forall|i: int| 0 <= i < dec_digits(n).len() ==> is_ascii_digit(#[trigger] dec_digits(n)[i]),
    decreases n,
{
    if n < 10 {
    } else {
        lemma_dec_digits_are_digits(n / 10);
    }
}

/// A positive number's digit string does not start with a zero.
pub proof fn lemma_dec_digits_leading(n: nat)
    requires
        n >= 1,
    ensures
        dec_digits(n)[0] != '0',
    decreases n,
{
    if n < 10 {
    } else {
        lemma_dec_digits_are_digits(n / 10);
        lemma_dec_digits_leading(n / 10);
    }
}

/// Two numbers with the same digit string are the same number.
pub proof fn lemma_dec_digits_injective(a: nat, b: nat)
    requires
        dec_digits(a) == dec_digits(b),
    ensures
        a == b,
    decreases a,
{
    lemma_dec_digits_are_digits(a / 10);
    lemma_dec_digits_are_digits(b / 10);
    if a < 10 && b < 10 {
        assert(dec_digits(a)[0] == digit_char(a));
        assert(dec_digits(b)[0] == digit_char(b));
    } else if a < 10 {
        assert(dec_digits(a).len() == 1);
        assert(dec_digits(b).len() == dec_digits(b / 10).len() + 1);
    } else if b < 10 {
        assert(dec_digits(b).len() == 1);
        assert(dec_digits(a).len() == dec_digits(a / 10).len() + 1);
    } else {
        let da = dec_digits(a);
        let db = dec_digits(b);
        assert(da.last() == digit_char(a % 10));
        assert(db.last() == digit_char(b % 10));
        assert(a % 10 == b % 10);
        assert(da.drop_last() =~= dec_digits(a / 10));
        assert(db.drop_last() =~= dec_digits(b / 10));
        lemma_dec_digits_injective(a / 10, b / 10);
        assert(a == 10 * (a / 10) + a % 10);
        assert(b == 10 * (b / 10) + b % 10);
    }
}

/// Two numbers padded to the same width give the same string only if they are
/// the same number.
pub proof fn lemma_zero_padded_injective(a: nat, b: nat, w: nat)
    requires
        zero_pad(dec_digits(a), w) == zero_pad(dec_digits(b), w),
    ensures
        a == b,
{
    let da = dec_digits(a);
    let db = dec_digits(b);
    let pa = zero_pad(da, w);
    let pb = zero_pad(db, w);
    lemma_dec_digits_are_digits(a);
    lemma_dec_digits_are_digits(b);
    if da.len() >= w && db.len() >= w {
        lemma_dec_digits_injective(a, b);
    } else if da.len() >= w {
        // pb is exactly w long, so da is too, and pb starts with a filler zero
        assert(pb.len() == w);
        assert(da.len() == w);
        assert(pb[0] == zeros((w - db.len()) as nat)[0]);
        assert(pa[0] == da[0]);
        if a == 0 {
            assert(da =~= seq![digit_char(0)]);
            assert(db.len() < 1);
        } else {
            lemma_dec_digits_leading(a);
            assert(pb[0] == '0');
        }
    } else if db.len() >= w {
        assert(pa.len() == w);
        assert(db.len() == w);
        assert(pa[0] == zeros((w - da.len()) as nat)[0]);
        assert(pb[0] == db[0]);
        if b == 0 {
            assert(db =~= seq![digit_char(0)]);
            assert(da.len() < 1);
        } else {
            lemma_dec_digits_leading(b);
            assert(pa[0] == '0');
        }
    } else {
        let ka = w - da.len();
        let kb = w - db.len();
        if da.len() == db.len() {
            assert(da =~= pa.subrange(ka as int, w as int));
            assert(db =~= pb.subrange(kb as int, w as int));
            lemma_dec_digits_injective(a, b);
        } else if da.len() > db.len() {
            // at the position where a's digits start, b still has a filler zero
            assert(pa[ka as int] == da[0]);
            assert(pb[ka as int] == '0');
            if a == 0 {
                assert(da =~= seq![digit_char(0)]);
                assert(db.len() < 1);
            } else {
                lemma_dec_digits_leading(a);
            }
        } else {
            assert(pb[kb as int] == db[0]);
            assert(pa[kb as int] == '0');
            if b == 0 {
                assert(db =~= seq![digit_char(0)]);
                assert(da.len() < 1);
            } else {
                lemma_dec_digits_leading(b);
            }
        }
    }
}

fn digit_string(d: u128) -> (r: String)
    requires
        d < 10,
    ensures
        r@ =~= seq![digit_char(d as nat)],
{
    proof {
        reveal_strlit("0");
        reveal_strlit("1");
        reveal_strlit("2");
        reveal_strlit("3");
        reveal_strlit("4");
        reveal_strlit("5");
        reveal_strlit("6");
        reveal_strlit("7");
        reveal_strlit("8");
        reveal_strlit("9");
    }
    let s = if d == 0 {
        "0"
    } else if d == 1 {
        "1"
    } else if d == 2 {
        "2"
    } else if d == 3 {
        "3"
    } else if d == 4 {
        "4"
    } else if d == 5 {
        "5"
    } else if d == 6 {
        "6"
    } else if d == 7 {
        "7"
    } else if d == 8 {
        "8"
    } else {
        "9"
    };
    String::from_str(s)
}

pub fn format_decimal(n: u128) -> (r: String)
    ensures
        r@ == dec_digits(n as nat),
    decreases n,
{
    if n < 10 {
        digit_string(n)
    } else {
        let mut r = format_decimal(n / 10);
        let last = digit_string(n % 10);
        r.append(last.as_str());
        proof {
            assert(r@ =~= dec_digits((n / 10) as nat).push(digit_char((n % 10) as nat)));
        }
        r
    }
}

/// Writes `n` in decimal, left-padded with zeros to at least `width`
/// characters.
pub fn format_padded(n: u128, width: usize) -> (r: String)
    ensures
        r@ == zero_pad(dec_digits(n as nat), width as nat),
{
    let digits = format_decimal(n);
    let len = digits.as_str().unicode_len();
    if len >= width {
        digits
    } else {
        let mut r = String::new();
        let mut i: usize = 0;
        proof {
            reveal_strlit("0");
        }
        while i < width - len
            invariant
                i <= width - len,
                len < width,
                r@ =~= zeros(i as nat),
                "0"@ =~= seq!['0'],
            decreases width - len - i,
        {
            r.append("0");
            proof {
                assert(r@ =~= zeros((i + 1) as nat));
            }
            i = i + 1;
        }
        r.append(digits.as_str());
        proof {
            assert(r@ =~= zero_pad(dec_digits(n as nat), width as nat));
        }
        r
    }
}

// Directory listings ----------------------------------------------------------

/// Whether a directory listing holds an entry with the given name.
pub open spec fn in_listing(listing: Seq<String>, name: Seq<char>) -> bool {
    exists|i: int| 0 <= i < listing.len() && listing[i]@ == name
}

/// Membership scan over a listing.
pub fn listing_contains(listing: &Vec<String>, name: &String) -> (r: bool)
    ensures
        r == in_listing(listing@, name@),
{
    let mut i: usize = 0;
    while i < listing.len()
        invariant
            i <= listing@.len(),
            forall|k: int| 0 <= k < i ==> listing@[k]@ != name@,
        decreases listing@.len() - i,
    {
        if listing[i].eq(name) {
            return true;
        }
        i = i + 1;
    }
    false
}

/// Distinct names that all occur in one listing cannot outnumber its entries.
pub proof fn lemma_distinct_names_fit(listing: Seq<String>, names: Seq<Seq<char>>)
    requires
        forall|i: int| 0 <= i < names.len() ==> in_listing(listing, #[trigger] names[i]),
        names.no_duplicates(),
    ensures
        names.len() <= listing.len(),
{
    broadcast use vstd::seq_lib::seq_to_set_is_finite;

    let lviews = views_of(listing);
    assert forall|x: Seq<char>| names.to_set().contains(x) implies lviews.to_set().contains(
        x,
    ) by {
        let i = choose|i: int| 0 <= i < names.len() && names[i] == x;
        assert(in_listing(listing, names[i]));
        let j = choose|j: int| 0 <= j < listing.len() && listing[j]@ == x;
        assert(lviews[j] == x);
        assert(lviews.contains(x));
    }
    names.unique_seq_to_set();
    lviews.lemma_cardinality_of_set();
    vstd::set_lib::lemma_len_subset(names.to_set(), lviews.to_set());
}

// Substring search -------------------------------------------------------------

/// Whether `sub` occurs somewhere in `s`.
pub open spec fn has_substring(s: Seq<char>, sub: Seq<char>) -> bool {
    exists|i: int| 0 <= i <= s.len() - sub.len() && #[trigger] s.subrange(i, i + sub.len()) == sub
}

/// Naive substring scan.
pub fn contains_substring(s: &String, sub: &String) -> (r: bool)
    ensures
        r == has_substring(s@, sub@),
{
    let n = s.as_str().unicode_len();
    let m = sub.as_str().unicode_len();
    if m > n {
        assert(!has_substring(s@, sub@));
        return false;
    }
    let mut i: usize = 0;
    while i <= n - m
        invariant
            m <= n,
            n == s@.len(),
            m == sub@.len(),
            i <= n - m + 1,
            forall|k: int| 0 <= k < i ==> #[trigger] s@.subrange(k, k + m) != sub@,
        decreases n - m + 1 - i,
    {
        let mut j: usize = 0;
        let mut matched = true;
        let ghost mut bad: int = 0;
        while j < m
            invariant
                matched ==> forall|l: int| 0 <= l < j ==> s@[i + l] == sub@[l],
                !matched ==> 0 <= bad < m && s@[i + bad] != sub@[bad],
                i + m <= n,
                n == s@.len(),
                m == sub@.len(),
                j <= m,
            decreases m - j,
        {
            if s.as_str().get_char(i + j) != sub.as_str().get_char(j) {
                proof {
                    bad = j as int;
                }
                matched = false;
                j = m;
            } else {
                j = j + 1;
            }
        }
        if matched {
            assert(s@.subrange(i as int, i + m) =~= sub@);
            return true;
        }
        assert(s@.subrange(i as int, i + m) != sub@) by {
            assert(s@.subrange(i as int, i + m)[bad] == s@[i + bad]);
        }
        i = i + 1;
    }
    false
}

} // verus!
