//! Password-database validation: each line of the database holds a count
//! range, a required character and a password; two policies decide whether
//! a password is acceptable.

use vstd::prelude::*;
use vstd::string::*;

verus! {

/// One parsed database line: a count range, the policy character, and the
/// password itself.
#[derive(Debug, Clone)]
pub struct DBEntry {
    pub min: i32,
    pub max: i32,
    pub character: char,
    pub password: String,
}

pub open spec fn is_space(c: char) -> bool {
    c == ' ' || c == '\t' || c == '\r' || c == '\n'
}

pub open spec fn is_digit(c: char) -> bool {
    48 <= c as int && c as int <= 57
}

pub open spec fn digit_val(c: char) -> int {
    c as int - 48
}

/// The least index of `s` that holds `c`, or `-1` if `c` does not occur.
pub open spec fn first_occ(s: Seq<char>, c: char) -> int
    decreases s.len(),
{
    if s.len() == 0 {
        -1
    } else if s[0] == c {
        0
    } else {
        let r = first_occ(s.skip(1), c);
        if r < 0 {
            -1
        } else {
            r + 1
        }
    }
}

pub proof fn lemma_first_occ(s: Seq<char>, c: char)
    ensures
        -1 <= first_occ(s, c) < s.len(),
        first_occ(s, c) >= 0 ==> s[first_occ(s, c)] == c,
        first_occ(s, c) >= 0 ==> forall|j: int| 0 <= j < first_occ(s, c) ==> s[j] != c,
        first_occ(s, c) == -1 ==> forall|j: int| 0 <= j < s.len() ==> s[j] != c,
    decreases s.len(),
{
    if s.len() > 0 && s[0] != c {
        lemma_first_occ(s.skip(1), c);
        assert forall|j: int| 0 <= j < s.len() && j >= 1 implies s[j] == s.skip(1)[j - 1] by {}
    }
}

/// `s` without its leading whitespace.
pub open spec fn trim_front(s: Seq<char>) -> Seq<char>
    decreases s.len(),
{
    if s.len() > 0 && is_space(s[0]) {
        trim_front(s.skip(1))
    } else {
        s
    }
}

/// `s` without its trailing whitespace.
pub open spec fn trim_back(s: Seq<char>) -> Seq<char>
    decreases s.len(),
{
    if s.len() > 0 && is_space(s.last()) {
        trim_back(s.drop_last())
    } else {
        s
    }
}

/// `s` without leading and trailing whitespace.
pub open spec fn trim_spec(s: Seq<char>) -> Seq<char> {
    trim_back(trim_front(s))
}

pub open spec fn all_digits(s: Seq<char>) -> bool {
    forall|i: int| 0 <= i < s.len() ==> is_digit(#[trigger] s[i])
}

/// The value of a string of decimal digits, most significant first.
pub open spec fn digits_val(s: Seq<char>) -> int
    decreases s.len(),
{
    if s.len() == 0 {
        0
    } else {
        digits_val(s.drop_last()) * 10 + digit_val(s.last())
    }
}

/// The digit part of a numeric token: an optional leading `+` sign is
/// dropped.
pub open spec fn token_digits(s: Seq<char>) -> Seq<char> {
    if s.len() > 0 && s[0] == '+' {
        s.skip(1)
    } else {
        s
    }
}

/// A token that parses as a non-negative `i32`: an optional `+`, then at
/// least one digit, with a value no greater than `i32::MAX`.
pub open spec fn is_i32_token(s: Seq<char>) -> bool {
    &&& token_digits(s).len() > 0
    &&& all_digits(token_digits(s))
    &&& digits_val(token_digits(s)) <= i32::MAX
}

pub open spec fn i32_token_val(s: Seq<char>) -> int {
    digits_val(token_digits(s))
}

/// How many positions of `s` hold `c`.
pub open spec fn count_char(s: Seq<char>, c: char) -> int
    decreases s.len(),
{
    if s.len() == 0 {
        0
    } else {
        count_char(s.drop_last(), c) + if s.last() == c {
            1int
        } else {
            0int
        }
    }
}

/// The least index of `s` at or after which `c` occurs, or `None`.
fn find_char(s: &str, c: char) -> (r: Option<usize>)
    ensures
        r matches Some(i) ==> 0 <= i < s@.len() && i as int == first_occ(s@, c),
        r is None ==> first_occ(s@, c) == -1,
{
    proof {
        lemma_first_occ(s@, c);
    }
    let n = s.unicode_len();
    let mut i: usize = 0;
    while i < n
        invariant
            0 <= i <= n == s@.len(),
            forall|j: int| 0 <= j < i ==> s@[j] != c,
            -1 <= first_occ(s@, c) < s@.len(),
            first_occ(s@, c) >= 0 ==> s@[first_occ(s@, c)] == c,
            first_occ(s@, c) >= 0 ==> forall|j: int| 0 <= j < first_occ(s@, c) ==> s@[j] != c,
            first_occ(s@, c) == -1 ==> forall|j: int| 0 <= j < s@.len() ==> s@[j] != c,
        decreases n - i,
    {
        if s.get_char(i) == c {
            return Some(i);
        }
        i = i + 1;
    }
    None
}

proof fn lemma_trim_front_skip(s: Seq<char>, a: int)
    requires
        0 <= a <= s.len(),
        forall|j: int| 0 <= j < a ==> is_space(#[trigger] s[j]),
        a < s.len() ==> !is_space(s[a]),
    ensures
        trim_front(s) == s.skip(a),
    decreases a,
{
    if a == 0 {
        assert(s.skip(0) =~= s);
    } else {
        lemma_trim_front_skip(s.skip(1), a - 1);
        assert(s.skip(1).skip(a - 1) =~= s.skip(a));
    }
}

proof fn lemma_trim_back_take(s: Seq<char>, b: int)
    requires
        0 <= b <= s.len(),
        forall|j: int| b <= j < s.len() ==> is_space(#[trigger] s[j]),
        b > 0 ==> !is_space(s[b - 1]),
    ensures
        trim_back(s) == s.take(b),
    decreases s.len() - b,
{
    if b == s.len() {
        assert(s.take(b) =~= s);
    } else {
        lemma_trim_back_take(s.drop_last(), b);
        assert(s.drop_last().take(b) =~= s.take(b));
    }
}

/// `s` with leading and trailing whitespace removed.
fn trim_str(s: &str) -> (r: &str)
    ensures
        r@ == trim_spec(s@),
{
    let n = s.unicode_len();
    let mut a: usize = 0;
    while a < n && is_space_exec(s.get_char(a))
        invariant
            0 <= a <= n == s@.len(),
            forall|j: int| 0 <= j < a ==> is_space(#[trigger] s@[j]),
        decreases n - a,
    {
        a = a + 1;
    }
    let mut b: usize = n;
    while b > a && is_space_exec(s.get_char(b - 1))
        invariant
            a <= b <= n == s@.len(),
            forall|j: int| 0 <= j < a ==> is_space(#[trigger] s@[j]),
            a < n ==> !is_space(s@[a as int]),
            forall|j: int| b <= j < s@.len() ==> is_space(#[trigger] s@[j]),
        decreases b,
    {
        b = b - 1;
    }
    let r = s.substring_char(a, b);
    proof {
        lemma_trim_front_skip(s@, a as int);
        let f = s@.skip(a as int);
        if b == a {
            lemma_trim_back_take(f, 0);
        } else {
            lemma_trim_back_take(f, b - a);
        }
        assert(f.take(b - a) =~= s@.subrange(a as int, b as int));
    }
    r
}

fn is_space_exec(c: char) -> (r: bool)
    ensures
        r == is_space(c),
{
    c == ' ' || c == '\t' || c == '\r' || c == '\n'
}

proof fn lemma_digits_val_nonneg(s: Seq<char>)
    requires
        all_digits(s),
    ensures
        digits_val(s) >= 0,
    decreases s.len(),
{
    if s.len() > 0 {
        assert(all_digits(s.drop_last()));
        lemma_digits_val_nonneg(s.drop_last());
    }
}

proof fn lemma_digits_val_take(s: Seq<char>, i: int)
    requires
        all_digits(s),
        0 <= i <= s.len(),
    ensures
        digits_val(s.take(i)) <= digits_val(s),
    decreases s.len() - i,
{
    if i < s.len() {
        lemma_digits_val_take(s, i + 1);
        assert(s.take(i + 1).drop_last() =~= s.take(i));
        assert(all_digits(s.take(i)));
        lemma_digits_val_nonneg(s.take(i));
        assert(digits_val(s.take(i + 1)) == digits_val(s.take(i)) * 10 + digit_val(s[i]));
    } else {
        assert(s.take(i) =~= s);
    }
}

/// The value of a numeric token, or `None` when the token does not parse
/// as a non-negative `i32`.
fn parse_i32_token(s: &str) -> (r: Option<i32>)
    ensures
        r is Some <==> is_i32_token(s@),
        r matches Some(v) ==> v as int == i32_token_val(s@),
{
    let n = s.unicode_len();
    let start: usize = if n > 0 && s.get_char(0) == '+' {
        1
    } else {
        0
    };
    let ghost d = token_digits(s@);
    proof {
        assert(d =~= s@.subrange(start as int, n as int));
    }
    if start >= n {
        return None;
    }
    let mut acc: i64 = 0;
    let mut i: usize = start;
    while i < n
        invariant
            start <= i <= n == s@.len(),
            d == token_digits(s@),
            d == s@.subrange(start as int, n as int),
            d.len() == n - start > 0,
            forall|j: int| 0 <= j < i - start ==> is_digit(#[trigger] d[j]),
            acc as int == digits_val(d.take(i - start)),
            0 <= acc <= i32::MAX,
        decreases n - i,
    {
        let c = s.get_char(i);
        let v = c as u32;
        if v < 48 || v > 57 {
            proof {
                assert(d[i - start] == s@[i as int]);
                assert(!is_digit(d[i - start]));
            }
            return None;
        }
        proof {
            assert(d.take(i + 1 - start).drop_last() =~= d.take(i - start));
            assert(d.take(i + 1 - start).last() == d[i - start]);
            assert(d[i - start] == s@[i as int]);
        }
        acc = acc * 10 + ((v - 48) as i64);
        if acc > (i32::MAX as i64) {
            proof {
                if all_digits(d) {
                    lemma_digits_val_take(d, i + 1 - start);
                }
            }
            return None;
        }
        i = i + 1;
    }
    proof {
        assert(d.take(n - start) =~= d);
    }
    Some(acc as i32)
}

/// The segment of a line before its first `:`.
pub open spec fn entry_req_seg(s: Seq<char>) -> Seq<char> {
    s.take(first_occ(s, ':'))
}

/// The segment of a line between its first `:` and its second `:` (or its
/// end), before trimming.
pub open spec fn entry_pass_seg(s: Seq<char>) -> Seq<char> {
    let rest = s.skip(first_occ(s, ':') + 1);
    let c2 = first_occ(rest, ':');
    if c2 < 0 {
        rest
    } else {
        rest.take(c2)
    }
}

pub open spec fn entry_password(s: Seq<char>) -> Seq<char> {
    trim_spec(entry_pass_seg(s))
}

/// The count-range token of a line: everything before the first space of
/// the requirement segment, trimmed.
pub open spec fn entry_counts_tok(s: Seq<char>) -> Seq<char> {
    let left = entry_req_seg(s);
    trim_spec(left.take(first_occ(left, ' ')))
}

/// The character token of a line: between the first space of the
/// requirement segment and its second space (or its end), trimmed.
pub open spec fn entry_char_tok(s: Seq<char>) -> Seq<char> {
    let left = entry_req_seg(s);
    let seg = left.skip(first_occ(left, ' ') + 1);
    let sp2 = first_occ(seg, ' ');
    trim_spec(
        if sp2 < 0 {
            seg
        } else {
            seg.take(sp2)
        },
    )
}

/// The lower-count token: everything in the count-range token before its
/// first `-`.
pub open spec fn entry_min_tok(s: Seq<char>) -> Seq<char> {
    let ct = entry_counts_tok(s);
    ct.take(first_occ(ct, '-'))
}

/// The upper-count token: between the first `-` of the count-range token
/// and its second `-` (or its end).
pub open spec fn entry_max_tok(s: Seq<char>) -> Seq<char> {
    let ct = entry_counts_tok(s);
    let rest = ct.skip(first_occ(ct, '-') + 1);
    let d2 = first_occ(rest, '-');
    if d2 < 0 {
        rest
    } else {
        rest.take(d2)
    }
}

/// A database line that parses: a `:` splits requirement from password, a
/// space splits the count range from a single policy character, and a `-`
/// splits two numeric count tokens.
pub open spec fn valid_entry(s: Seq<char>) -> bool {
    &&& first_occ(s, ':') >= 0
    &&& first_occ(entry_req_seg(s), ' ') >= 0
    &&& entry_char_tok(s).len() == 1
    &&& first_occ(entry_counts_tok(s), '-') >= 0
    &&& is_i32_token(entry_min_tok(s))
    &&& is_i32_token(entry_max_tok(s))
}

pub open spec fn entry_min(s: Seq<char>) -> int {
    i32_token_val(entry_min_tok(s))
}

pub open spec fn entry_max(s: Seq<char>) -> int {
    i32_token_val(entry_max_tok(s))
}

pub open spec fn entry_char(s: Seq<char>) -> char {
    entry_char_tok(s)[0]
}

/// All the fields of `e` are the ones that the line `s` parses to.
pub open spec fn entry_matches(e: DBEntry, s: Seq<char>) -> bool {
    &&& e.min as int == entry_min(s)
    &&& e.max as int == entry_max(s)
    &&& e.character == entry_char(s)
    &&& e.password@ == entry_password(s)
}

fn parse_entry_impl(s: &str) -> (r: Option<DBEntry>)
    ensures
        r is Some <==> valid_entry(s@),
        r matches Some(e) ==> entry_matches(e, s@),
{
    let n = s.unicode_len();
    let c1 = match find_char(s, ':') {
        Some(i) => i,
        None => {
            return None;
        },
    };
    let left = s.substring_char(0, c1);
    let rest = s.substring_char(c1 + 1, n);
    proof {
        assert(left@ =~= entry_req_seg(s@));
        assert(rest@ =~= s@.skip(c1 + 1));
    }
    let pass_seg = match find_char(rest, ':') {
        Some(i) => rest.substring_char(0, i),
        None => rest,
    };
    proof {
        assert(pass_seg@ =~= entry_pass_seg(s@));
    }
    let password = trim_str(pass_seg);
    let sp1 = match find_char(left, ' ') {
        Some(i) => i,
        None => {
            return None;
        },
    };
    let counts_tok = trim_str(left.substring_char(0, sp1));
    proof {
        assert(left@.subrange(0, sp1 as int) =~= entry_req_seg(s@).take(sp1 as int));
        assert(counts_tok@ == entry_counts_tok(s@));
    }
    let left_len = left.unicode_len();
    let char_seg = left.substring_char(sp1 + 1, left_len);
    let char_raw = match find_char(char_seg, ' ') {
        Some(i) => char_seg.substring_char(0, i),
        None => char_seg,
    };
    let char_tok = trim_str(char_raw);
    proof {
        assert(char_seg@ =~= entry_req_seg(s@).skip(sp1 + 1));
        assert(char_tok@ == entry_char_tok(s@));
    }
    if char_tok.unicode_len() != 1 {
        return None;
    }
    let character = char_tok.get_char(0);
    let d1 = match find_char(counts_tok, '-') {
        Some(i) => i,
        None => {
            return None;
        },
    };
    let min_tok = counts_tok.substring_char(0, d1);
    let ct_len = counts_tok.unicode_len();
    let rest2 = counts_tok.substring_char(d1 + 1, ct_len);
    let max_tok = match find_char(rest2, '-') {
        Some(i) => rest2.substring_char(0, i),
        None => rest2,
    };
    proof {
        assert(min_tok@ =~= entry_min_tok(s@));
        assert(rest2@ =~= entry_counts_tok(s@).skip(d1 + 1));
        assert(max_tok@ == entry_max_tok(s@));
    }
    let min = match parse_i32_token(min_tok) {
        Some(v) => v,
        None => {
            return None;
        },
    };
    let max = match parse_i32_token(max_tok) {
        Some(v) => v,
        None => {
            return None;
        },
    };
    Some(DBEntry { min, max, character, password: password.to_owned() })
}

/// Whether a database line parses as an entry.
pub fn is_valid_entry_line(s: &str) -> (b: bool)
    ensures
        b == valid_entry(s@),
{
    parse_entry_impl(s).is_some()
}

/// The entry that the database line `db_entry` parses to.
pub fn unpack_db_entry(db_entry: &str) -> (e: DBEntry)
    requires
        valid_entry(db_entry@),
    ensures
        entry_matches(e, db_entry@),
{
    match parse_entry_impl(db_entry) {
        Some(e) => e,
        None => {
            proof {
                assert(false);
            }
            unreached()
        },
    }
}

/// The entries that the database lines parse to, in order.
pub fn db_entries_from_input(input_data: &Vec<String>) -> (r: Vec<DBEntry>)
    requires
        forall|i: int| 0 <= i < input_data@.len() ==> valid_entry(#[trigger] input_data@[i]@),
    ensures
        r@.len() == input_data@.len(),
        forall|i: int| 0 <= i < r@.len() ==> entry_matches(#[trigger] r@[i], input_data@[i]@),
{
    let mut r: Vec<DBEntry> = Vec::new();
    let mut i: usize = 0;
    while i < input_data.len()
        invariant
            0 <= i <= input_data@.len(),
            r@.len() == i,
            forall|k: int| 0 <= k < input_data@.len() ==> valid_entry(#[trigger] input_data@[k]@),
            forall|k: int| 0 <= k < i ==> entry_matches(#[trigger] r@[k], input_data@[k]@),
        decreases input_data@.len() - i,
    {
        let e = unpack_db_entry(input_data[i].as_str());
        r.push(e);
        i = i + 1;
    }
    r
}

/// The first policy: the password holds the policy character at least
/// `min` and at most `max` times.
pub open spec fn good_entry_part1(e: DBEntry) -> bool {
    e.min as int <= count_char(e.password@, e.character) <= e.max as int
}

/// The second policy: of the two 1-based positions `min` and `max` of the
/// password, exactly one holds the policy character.
pub open spec fn good_entry_part2(e: DBEntry) -> bool {
    (e.password@[e.min - 1] == e.character) != (e.password@[e.max - 1] == e.character)
}

/// Both 1-based positions of an entry fall inside its password.
pub open spec fn entry_positions_ok(e: DBEntry) -> bool {
    &&& 1 <= e.min as int <= e.password@.len()
    &&& 1 <= e.max as int <= e.password@.len()
}

fn count_char_in(s: &str, c: char) -> (r: usize)
    ensures
        r as int == count_char(s@, c),
{
    let n = s.unicode_len();
    let mut cnt: usize = 0;
    let mut i: usize = 0;
    while i < n
        invariant
            0 <= i <= n == s@.len(),
            cnt <= i,
            cnt as int == count_char(s@.take(i as int), c),
        decreases n - i,
    {
        proof {
            assert(s@.take(i + 1).drop_last() =~= s@.take(i as int));
            assert(s@.take(i + 1).last() == s@[i as int]);
        }
        if s.get_char(i) == c {
            cnt = cnt + 1;
        }
        i = i + 1;
    }
    proof {
        assert(s@.take(n as int) =~= s@);
    }
    cnt
}

/// Whether `entry` meets the first policy.
pub fn is_good_entry_part1(entry: &DBEntry) -> (b: bool)
    ensures
        b == good_entry_part1(*entry),
{
    let cnt = count_char_in(entry.password.as_str(), entry.character);
    let lower_ok = if entry.min <= 0 {
        true
    } else {
        (entry.min as usize) <= cnt
    };
    let upper_ok = if entry.max < 0 {
        false
    } else {
        cnt <= (entry.max as usize)
    };
    lower_ok && upper_ok
}

/// Whether `entry` meets the second policy.
pub fn is_good_entry_part2(entry: &DBEntry) -> (b: bool)
    requires
        entry_positions_ok(*entry),
    ensures
        b == good_entry_part2(*entry),
{
    let p = entry.password.as_str();
    let a = p.get_char((entry.min - 1) as usize);
    let b = p.get_char((entry.max - 1) as usize);
    (a == entry.character) != (b == entry.character)
}

/// How many of the first `n` entries meet the first policy.
pub open spec fn count_good_part1(entries: Seq<DBEntry>) -> int
    decreases entries.len(),
{
    if entries.len() == 0 {
        0
    } else {
        count_good_part1(entries.drop_last()) + if good_entry_part1(entries.last()) {
            1int
        } else {
            0int
        }
    }
}

/// How many of the first `n` entries meet the second policy.
pub open spec fn count_good_part2(entries: Seq<DBEntry>) -> int
    decreases entries.len(),
{
    if entries.len() == 0 {
        0
    } else {
        count_good_part2(entries.drop_last()) + if good_entry_part2(entries.last()) {
            1int
        } else {
            0int
        }
    }
}

/// How many entries meet the first policy.
pub fn n_good_part1(db_entries: &Vec<DBEntry>) -> (r: u32)
    requires
        db_entries@.len() <= u32::MAX,
    ensures
        r as int == count_good_part1(db_entries@),
{
    let mut cnt: u32 = 0;
    let mut i: usize = 0;
    while i < db_entries.len()
        invariant
            0 <= i <= db_entries@.len() <= u32::MAX,
            cnt <= i,
            cnt as int == count_good_part1(db_entries@.take(i as int)),
        decreases db_entries@.len() - i,
    {
        proof {
            assert(db_entries@.take(i + 1).drop_last() =~= db_entries@.take(i as int));
            assert(db_entries@.take(i + 1).last() == db_entries@[i as int]);
        }
        if is_good_entry_part1(&db_entries[i]) {
            cnt = cnt + 1;
        }
        i = i + 1;
    }
    proof {
        assert(db_entries@.take(db_entries@.len() as int) =~= db_entries@);
    }
    cnt
}

/// How many entries meet the second policy.
pub fn n_good_part2(db_entries: &Vec<DBEntry>) -> (r: u32)
    requires
        db_entries@.len() <= u32::MAX,
        forall|i: int| 0 <= i < db_entries@.len() ==> entry_positions_ok(#[trigger] db_entries@[i]),
    ensures
        r as int == count_good_part2(db_entries@),
{
    let mut cnt: u32 = 0;
    let mut i: usize = 0;
    while i < db_entries.len()
        invariant
            0 <= i <= db_entries@.len() <= u32::MAX,
            cnt <= i,
            forall|k: int|
                0 <= k < db_entries@.len() ==> entry_positions_ok(#[trigger] db_entries@[k]),
            cnt as int == count_good_part2(db_entries@.take(i as int)),
        decreases db_entries@.len() - i,
    {
        proof {
            assert(db_entries@.take(i + 1).drop_last() =~= db_entries@.take(i as int));
            assert(db_entries@.take(i + 1).last() == db_entries@[i as int]);
        }
        if is_good_entry_part2(&db_entries[i]) {
            cnt = cnt + 1;
        }
        i = i + 1;
    }
    proof {
        assert(db_entries@.take(db_entries@.len() as int) =~= db_entries@);
    }
    cnt
}

} // verus!
