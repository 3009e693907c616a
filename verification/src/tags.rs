use crate::task::{days_in_month, dt_valid, DateTime, Priority};
use vstd::prelude::*;

verus! {

// ---------------------------------------------------------------------------
// Characters and tokens
//
// A description is a sequence of characters; a token is a maximal run of
// non-whitespace characters. A tag is a whole token beginning with `#`.
// ---------------------------------------------------------------------------

pub open spec fn is_space(c: char) -> bool {
    c == ' ' || c == '\t' || c == '\n' || c == '\r'
}

pub open spec fn is_word_char(c: char) -> bool {
    ('a' <= c && c <= 'z') || ('A' <= c && c <= 'Z') || ('0' <= c && c <= '9') || c == '_'
}

pub open spec fn is_digit(c: char) -> bool {
    '0' <= c && c <= '9'
}

/// Numeric value of a decimal digit character.
pub open spec fn digit_val(c: char) -> int {
    (c as u8) as int - 48
}

/// ASCII lower-casing of one character; other characters are unchanged.
pub open spec fn spec_lower(c: char) -> char {
    if 'A' <= c && c <= 'Z' {
        ((c as u8) + 32) as char
    } else {
        c
    }
}

pub open spec fn lower_seq(s: Seq<char>) -> Seq<char> {
    s.map_values(|c: char| spec_lower(c))
}

/// True at the first character of a token: a non-space character at the start
/// of the text or right after a space.
pub open spec fn tok_start(s: Seq<char>, i: int) -> bool {
    0 <= i < s.len() && !is_space(s[i]) && (i == 0 || is_space(s[i - 1]))
}

/// Index one past the last character of the token beginning at `i`: the first
/// index at or after `i` holding a space, or the end of the text.
pub open spec fn tok_end(s: Seq<char>, i: int) -> int
    recommends
        0 <= i <= s.len(),
    decreases s.len() - i,
{
    if i < 0 || i >= s.len() || is_space(s[i]) {
        i
    } else {
        tok_end(s, i + 1)
    }
}

pub open spec fn token_at(s: Seq<char>, i: int) -> Seq<char>
    recommends
        0 <= i <= s.len(),
{
    s.subrange(i, tok_end(s, i))
}

/// The text with the token beginning at `i` deleted; the whitespace around it
/// stays in place.
pub open spec fn remove_tok(s: Seq<char>, i: int) -> Seq<char>
    recommends
        0 <= i <= s.len(),
{
    s.subrange(0, i) + s.subrange(tok_end(s, i), s.len() as int)
}

pub proof fn lemma_tok_end_bounds(s: Seq<char>, i: int)
    requires
        0 <= i <= s.len(),
    ensures
        i <= tok_end(s, i) <= s.len(),
    decreases s.len() - i,
{
    if i < s.len() && !is_space(s[i]) {
        lemma_tok_end_bounds(s, i + 1);
    }
}

// ---------------------------------------------------------------------------
// Tag shapes
// ---------------------------------------------------------------------------

/// The reserved priority keywords, lower case.
pub open spec fn is_reserved_word(w: Seq<char>) -> bool {
    w == seq!['p', '1'] || w == seq!['p', '2'] || w == seq!['p', '3'] || w == seq![
        'h',
        'i',
        'g',
        'h',
    ] || w == seq!['m', 'e', 'd', 'i', 'u', 'm'] || w == seq!['l', 'o', 'w']
}

/// Priority denoted by a reserved keyword.
pub open spec fn prio_of_word(w: Seq<char>) -> Priority
    recommends
        is_reserved_word(w),
{
    if w == seq!['p', '1'] || w == seq!['h', 'i', 'g', 'h'] {
        Priority::High
    } else if w == seq!['p', '2'] || w == seq!['m', 'e', 'd', 'i', 'u', 'm'] {
        Priority::Medium
    } else {
        Priority::Low
    }
}

/// A priority tag: `#` followed by a reserved keyword, case-insensitive.
pub open spec fn is_prio_tok(t: Seq<char>) -> bool {
    t.len() >= 1 && t[0] == '#' && is_reserved_word(lower_seq(t.skip(1)))
}

/// A category-shaped tag: `#` followed by a non-empty word of letters, digits
/// and underscores. Whether it becomes a category also depends on the
/// reserved-keyword collision rule.
pub open spec fn is_cat_tok(t: Seq<char>) -> bool {
    t.len() >= 2 && t[0] == '#' && (forall|k: int| 1 <= k < t.len() ==> is_word_char(t[k]))
}

/// The category label a category-shaped tag denotes: its word, lower-cased.
pub open spec fn cat_word(t: Seq<char>) -> Seq<char> {
    lower_seq(t.skip(1))
}

/// The fixed due-date pattern `#YYYY-MM-DD_HH:MM`.
pub open spec fn date_shape(t: Seq<char>) -> bool {
    t.len() == 17 && t[0] == '#' && is_digit(t[1]) && is_digit(t[2]) && is_digit(t[3]) && is_digit(
        t[4],
    ) && t[5] == '-' && is_digit(t[6]) && is_digit(t[7]) && t[8] == '-' && is_digit(t[9])
        && is_digit(t[10]) && t[11] == '_' && is_digit(t[12]) && is_digit(t[13]) && t[14] == ':'
        && is_digit(t[15]) && is_digit(t[16])
}

/// The date and time a due-date-shaped tag denotes.
pub open spec fn dt_of_tok(t: Seq<char>) -> DateTime
    recommends
        date_shape(t),
{
    DateTime {
        year: (digit_val(t[1]) * 1000 + digit_val(t[2]) * 100 + digit_val(t[3]) * 10 + digit_val(
            t[4],
        )) as u16,
        month: (digit_val(t[6]) * 10 + digit_val(t[7])) as u8,
        day: (digit_val(t[9]) * 10 + digit_val(t[10])) as u8,
        hour: (digit_val(t[12]) * 10 + digit_val(t[13])) as u8,
        minute: (digit_val(t[15]) * 10 + digit_val(t[16])) as u8,
    }
}

/// A due-date tag: the fixed pattern, and the date and time it denotes are
/// valid on the calendar. A malformed date is not extracted.
pub open spec fn is_date_tok(t: Seq<char>) -> bool {
    date_shape(t) && dt_valid(dt_of_tok(t))
}

// ---------------------------------------------------------------------------
// Locating the first tag of a kind
// ---------------------------------------------------------------------------

/// Start index of the first priority tag at or after `i`, if any.
pub open spec fn find_prio(s: Seq<char>, i: int) -> Option<int>
    recommends
        0 <= i <= s.len(),
    decreases s.len() - i,
{
    if i < 0 || i >= s.len() {
        None
    } else if tok_start(s, i) && is_prio_tok(token_at(s, i)) {
        Some(i)
    } else {
        find_prio(s, i + 1)
    }
}

/// Start index of the first category-shaped tag at or after `i`, if any.
pub open spec fn find_cat(s: Seq<char>, i: int) -> Option<int>
    recommends
        0 <= i <= s.len(),
    decreases s.len() - i,
{
    if i < 0 || i >= s.len() {
        None
    } else if tok_start(s, i) && is_cat_tok(token_at(s, i)) {
        Some(i)
    } else {
        find_cat(s, i + 1)
    }
}

/// Start index of the first due-date tag at or after `i`, if any.
pub open spec fn find_date(s: Seq<char>, i: int) -> Option<int>
    recommends
        0 <= i <= s.len(),
    decreases s.len() - i,
{
    if i < 0 || i >= s.len() {
        None
    } else if tok_start(s, i) && is_date_tok(token_at(s, i)) {
        Some(i)
    } else {
        find_date(s, i + 1)
    }
}

// ---------------------------------------------------------------------------
// Trimming
// ---------------------------------------------------------------------------

pub open spec fn ltrim_from(s: Seq<char>, i: int) -> int
    recommends
        0 <= i <= s.len(),
    decreases s.len() - i,
{
    if i < 0 || i >= s.len() {
        i
    } else if is_space(s[i]) {
        ltrim_from(s, i + 1)
    } else {
        i
    }
}

pub open spec fn rtrim_from(s: Seq<char>, j: int) -> int
    recommends
        0 <= j <= s.len(),
    decreases j,
{
    if j <= 0 {
        0
    } else if is_space(s[j - 1]) {
        rtrim_from(s, j - 1)
    } else {
        j
    }
}

/// The text with leading and trailing whitespace removed.
pub open spec fn spec_trim(s: Seq<char>) -> Seq<char> {
    let l = ltrim_from(s, 0);
    let r = rtrim_from(s, s.len() as int);
    if l >= r {
        Seq::empty()
    } else {
        s.subrange(l, r)
    }
}

// ---------------------------------------------------------------------------
// The parse pipeline
//
// Three steps in a fixed order, each working on the output of the previous:
// extract the first priority tag, then the first category tag (unless its
// word is a reserved priority keyword, in which case it is left untouched),
// then the first due-date tag; finally trim the remaining text. Only the
// first tag of each kind is consumed.
// ---------------------------------------------------------------------------

pub open spec fn step_prio(s: Seq<char>) -> (Seq<char>, Option<Priority>) {
    match find_prio(s, 0) {
        Some(i) => (remove_tok(s, i), Some(prio_of_word(lower_seq(token_at(s, i).skip(1))))),
        None => (s, None),
    }
}

pub open spec fn step_cat(s: Seq<char>) -> (Seq<char>, Option<Seq<char>>) {
    match find_cat(s, 0) {
        Some(i) => if is_reserved_word(cat_word(token_at(s, i))) {
            (s, None)
        } else {
            (remove_tok(s, i), Some(cat_word(token_at(s, i))))
        },
        None => (s, None),
    }
}

pub open spec fn step_date(s: Seq<char>) -> (Seq<char>, Option<DateTime>) {
    match find_date(s, 0) {
        Some(i) => (remove_tok(s, i), Some(dt_of_tok(token_at(s, i)))),
        None => (s, None),
    }
}

/// Result of parsing a raw description, as mathematical values.
pub ghost struct ParsedView {
    pub clean: Seq<char>,
    pub category: Option<Seq<char>>,
    pub due_time: Option<DateTime>,
    pub priority: Option<Priority>,
}

/// What `parse_task_description` returns, as a function of the raw text.
pub open spec fn spec_parse(s: Seq<char>) -> ParsedView {
    let (s1, pr) = step_prio(s);
    let (s2, cat) = step_cat(s1);
    let (s3, due) = step_date(s2);
    ParsedView { clean: spec_trim(s3), category: cat, due_time: due, priority: pr }
}

/// A category is never a reserved priority keyword: a tag whose word collides
/// with one is left untouched by the category step.
pub proof fn lemma_category_never_reserved(s: Seq<char>)
    ensures
        match spec_parse(s).category {
            Some(c) => !is_reserved_word(c),
            None => true,
        },
{
}

// ---------------------------------------------------------------------------
// Executable helpers
// ---------------------------------------------------------------------------

pub fn is_space_c(c: char) -> (r: bool)
    ensures
        r == is_space(c),
{
    c == ' ' || c == '\t' || c == '\n' || c == '\r'
}

pub fn is_word_char_c(c: char) -> (r: bool)
    ensures
        r == is_word_char(c),
{
    ('a' <= c && c <= 'z') || ('A' <= c && c <= 'Z') || ('0' <= c && c <= '9') || c == '_'
}

pub fn lower_char(c: char) -> (r: char)
    ensures
        r == spec_lower(c),
{
    if 'A' <= c && c <= 'Z' {
        ((c as u8) + 32) as char
    } else {
        c
    }
}

/// Copies the characters of `s` between `a` and `b`.
pub fn subvec(s: &Vec<char>, a: usize, b: usize) -> (r: Vec<char>)
    requires
        a <= b <= s@.len(),
    ensures
        r@ == s@.subrange(a as int, b as int),
{
    let mut r: Vec<char> = Vec::new();
    let mut i: usize = a;
    while i < b
        invariant
            a <= i <= b <= s@.len(),
            r@ == s@.subrange(a as int, i as int),
        decreases b - i,
    {
        r.push(s[i]);
        i += 1;
        assert(r@ =~= s@.subrange(a as int, i as int));
    }
    r
}

/// Whether two character vectors hold the same characters.
pub fn chars_eq(a: &Vec<char>, b: &Vec<char>) -> (r: bool)
    ensures
        r == (a@ == b@),
{
    if a.len() != b.len() {
        return false;
    }
    let mut i: usize = 0;
    while i < a.len()
        invariant
            i <= a.len(),
            a@.len() == b@.len(),
            forall|k: int| 0 <= k < i ==> a@[k] == b@[k],
        decreases a.len() - i,
    {
        if a[i] != b[i] {
            return false;
        }
        i += 1;
    }
    assert(a@ =~= b@);
    true
}

/// Lower-cases every character.
pub fn lower_vec(s: &Vec<char>) -> (r: Vec<char>)
    ensures
        r@ == lower_seq(s@),
{
    let mut r: Vec<char> = Vec::new();
    let mut i: usize = 0;
    while i < s.len()
        invariant
            i <= s.len(),
            r@.len() == i,
            forall|k: int| 0 <= k < i ==> r@[k] == spec_lower(s@[k]),
        decreases s.len() - i,
    {
        r.push(lower_char(s[i]));
        i += 1;
    }
    assert(r@ =~= lower_seq(s@));
    r
}

fn is_reserved_exec(w: &Vec<char>) -> (r: bool)
    ensures
        r == is_reserved_word(w@),
{
    let p1 = vec!['p', '1'];
    assert(p1@ =~= seq!['p', '1']);
    let p2 = vec!['p', '2'];
    assert(p2@ =~= seq!['p', '2']);
    let p3 = vec!['p', '3'];
    assert(p3@ =~= seq!['p', '3']);
    let high = vec!['h', 'i', 'g', 'h'];
    assert(high@ =~= seq!['h', 'i', 'g', 'h']);
    let medium = vec!['m', 'e', 'd', 'i', 'u', 'm'];
    assert(medium@ =~= seq!['m', 'e', 'd', 'i', 'u', 'm']);
    let low = vec!['l', 'o', 'w'];
    assert(low@ =~= seq!['l', 'o', 'w']);
    chars_eq(w, &p1) || chars_eq(w, &p2) || chars_eq(w, &p3) || chars_eq(w, &high) || chars_eq(
        w,
        &medium,
    ) || chars_eq(w, &low)
}

fn prio_of_word_exec(w: &Vec<char>) -> (r: Priority)
    requires
        is_reserved_word(w@),
    ensures
        r == prio_of_word(w@),
{
    let p1 = vec!['p', '1'];
    assert(p1@ =~= seq!['p', '1']);
    let p2 = vec!['p', '2'];
    assert(p2@ =~= seq!['p', '2']);
    let high = vec!['h', 'i', 'g', 'h'];
    assert(high@ =~= seq!['h', 'i', 'g', 'h']);
    let medium = vec!['m', 'e', 'd', 'i', 'u', 'm'];
    assert(medium@ =~= seq!['m', 'e', 'd', 'i', 'u', 'm']);
    if chars_eq(w, &p1) || chars_eq(w, &high) {
        Priority::High
    } else if chars_eq(w, &p2) || chars_eq(w, &medium) {
        Priority::Medium
    } else {
        Priority::Low
    }
}

/// End of the token beginning at `i`.
fn token_end_at(s: &Vec<char>, i: usize) -> (j: usize)
    requires
        i <= s@.len(),
    ensures
        j == tok_end(s@, i as int),
        i <= j <= s@.len(),
{
    let mut j: usize = i;
    while j < s.len() && !is_space_c(s[j])
        invariant
            i <= j <= s@.len(),
            tok_end(s@, i as int) == tok_end(s@, j as int),
        decreases s.len() - j,
    {
        j += 1;
    }
    assert(tok_end(s@, j as int) == j);
    j
}

/// The text with the characters between `a` and `b` deleted.
pub fn remove_range(s: &Vec<char>, a: usize, b: usize) -> (r: Vec<char>)
    requires
        a <= b <= s@.len(),
    ensures
        r@ == s@.subrange(0, a as int) + s@.subrange(b as int, s@.len() as int),
{
    let mut r: Vec<char> = Vec::new();
    let mut i: usize = 0;
    while i < a
        invariant
            i <= a <= s@.len(),
            r@ == s@.subrange(0, i as int),
        decreases a - i,
    {
        r.push(s[i]);
        i += 1;
        assert(r@ =~= s@.subrange(0, i as int));
    }
    let mut k: usize = b;
    while k < s.len()
        invariant
            a <= b <= k <= s@.len(),
            r@ == s@.subrange(0, a as int) + s@.subrange(b as int, k as int),
        decreases s.len() - k,
    {
        r.push(s[k]);
        k += 1;
        assert(r@ =~= s@.subrange(0, a as int) + s@.subrange(b as int, k as int));
    }
    r
}

/// Removes leading and trailing whitespace.
pub fn trim_vec(s: &Vec<char>) -> (r: Vec<char>)
    ensures
        r@ == spec_trim(s@),
{
    let mut l: usize = 0;
    while l < s.len() && is_space_c(s[l])
        invariant
            l <= s@.len(),
            ltrim_from(s@, 0) == ltrim_from(s@, l as int),
        decreases s.len() - l,
    {
        l += 1;
    }
    assert(ltrim_from(s@, l as int) == l);
    let mut r: usize = s.len();
    while r > 0 && is_space_c(s[r - 1])
        invariant
            r <= s@.len(),
            rtrim_from(s@, s@.len() as int) == rtrim_from(s@, r as int),
        decreases r,
    {
        r -= 1;
    }
    assert(rtrim_from(s@, r as int) == r);
    if l >= r {
        let empty: Vec<char> = Vec::new();
        assert(empty@ =~= spec_trim(s@));
        empty
    } else {
        subvec(s, l, r)
    }
}

// ---------------------------------------------------------------------------
// How deleting one token moves the others
//
// Deleting a whole token leaves the surrounding whitespace in place, so the
// other tokens survive unchanged: those before it at their positions, those
// after it shifted left by the token's length.
// ---------------------------------------------------------------------------

/// A priority tag stands at `i`.
pub open spec fn prio_tok_at(s: Seq<char>, i: int) -> bool {
    tok_start(s, i) && is_prio_tok(token_at(s, i))
}

/// A category tag stands at `i`: category-shaped and not a reserved keyword.
pub open spec fn cat_tok_at(s: Seq<char>, i: int) -> bool {
    tok_start(s, i) && is_cat_tok(token_at(s, i)) && !is_reserved_word(cat_word(token_at(s, i)))
}

/// A due-date tag stands at `i`.
pub open spec fn date_tok_at(s: Seq<char>, i: int) -> bool {
    tok_start(s, i) && is_date_tok(token_at(s, i))
}

/// Every character of a token is a non-space.
proof fn lemma_tok_chars(s: Seq<char>, i: int, k: int)
    requires
        0 <= i <= s.len(),
        i <= k < tok_end(s, i),
    ensures
        !is_space(s[k]),
        tok_end(s, i) <= s.len(),
    decreases k - i,
{
    lemma_tok_end_bounds(s, i);
    if i < k {
        lemma_tok_chars(s, i + 1, k);
    }
}

/// A token ends at the end of the text or at a space.
proof fn lemma_tok_end_stop(s: Seq<char>, i: int)
    requires
        0 <= i <= s.len(),
    ensures
        tok_end(s, i) == s.len() || (tok_end(s, i) < s.len() && is_space(s[tok_end(s, i)])),
    decreases s.len() - i,
{
    lemma_tok_end_bounds(s, i);
    if i < s.len() && !is_space(s[i]) {
        lemma_tok_end_stop(s, i + 1);
    }
}

/// A token never runs past a space.
proof fn lemma_tok_end_le(s: Seq<char>, i: int, m: int)
    requires
        0 <= i <= m < s.len(),
        is_space(s[m]),
    ensures
        tok_end(s, i) <= m,
    decreases m - i,
{
    if i < m && !is_space(s[i]) {
        lemma_tok_end_le(s, i + 1, m);
    }
}

/// Two equal windows that both end at a space, or both reach their texts'
/// ends, give their tokens the same length.
proof fn lemma_tok_end_agree(s1: Seq<char>, s2: Seq<char>, j1: int, j2: int, m: int)
    requires
        0 <= j1,
        0 <= j2,
        0 <= m,
        j1 + m <= s1.len(),
        j2 + m <= s2.len(),
        s1.subrange(j1, j1 + m) == s2.subrange(j2, j2 + m),
        (m > 0 && is_space(s1[j1 + m - 1])) || (j1 + m == s1.len() && j2 + m == s2.len()),
    ensures
        tok_end(s1, j1) - j1 == tok_end(s2, j2) - j2,
    decreases m,
{
    if m == 0 {
        assert(tok_end(s1, j1) == j1);
        assert(tok_end(s2, j2) == j2);
    } else {
        assert(s2[j2] == s1[j1]) by {
            assert(s1.subrange(j1, j1 + m)[0] == s1[j1]);
            assert(s2.subrange(j2, j2 + m)[0] == s2[j2]);
        }
        if !is_space(s1[j1]) {
            assert(s1.subrange(j1 + 1, j1 + m) =~= s2.subrange(j2 + 1, j2 + m)) by {
                assert forall|k: int|
                    0 <= k < m - 1 implies #[trigger] s1.subrange(j1 + 1, j1 + m)[k] == s2.subrange(
                    j2 + 1,
                    j2 + m,
                )[k] by {
                    assert(s1.subrange(j1, j1 + m)[k + 1] == s1[j1 + 1 + k]);
                    assert(s2.subrange(j2, j2 + m)[k + 1] == s2[j2 + 1 + k]);
                }
            }
            assert(m > 1 ==> s1[j1 + m - 1] == s1.subrange(j1 + 1, j1 + m)[m - 2]);
            lemma_tok_end_agree(s1, s2, j1 + 1, j2 + 1, m - 1);
        }
    }
}

/// Where each position of the shortened text comes from.
pub open spec fn unshift(a: int, d: int, j: int) -> int {
    if j < a {
        j
    } else {
        j + d
    }
}

/// Where each position of the original lands in the shortened text.
pub open spec fn unstep(a: int, d: int, k: int) -> int {
    if k < a {
        k
    } else {
        k - d
    }
}

/// After deleting the token at `a`, position `j` of the result carries the
/// same token start, and the same token, as position `unshift` of the
/// original; and the original's token starts other than `a` all appear.
#[verifier::rlimit(100)]
proof fn lemma_remove_tok_correspond(s: Seq<char>, a: int)
    requires
        tok_start(s, a),
    ensures
        ({
            let b = tok_end(s, a);
            let d = b - a;
            let s2 = remove_tok(s, a);
            &&& s2.len() == s.len() - d
            &&& d > 0
            &&& forall|j: int|
                0 <= j < s2.len() ==> (#[trigger] tok_start(s2, j) <==> tok_start(
                    s,
                    unshift(a, d, j),
                ))
            &&& forall|j: int|
                0 <= j < s2.len() && #[trigger] tok_start(s2, j) ==> token_at(s2, j) == token_at(
                    s,
                    unshift(a, d, j),
                )
            &&& forall|k: int|
                #[trigger] tok_start(s, k) && k != a ==> 0 <= unstep(a, d, k) < s2.len()
                    && tok_start(s2, unstep(a, d, k)) && unshift(a, d, unstep(a, d, k)) == k
        }),
{
    let b = tok_end(s, a);
    let d = b - a;
    let s2 = remove_tok(s, a);
    lemma_tok_end_bounds(s, a);
    lemma_tok_end_stop(s, a);
    assert(!is_space(s[a]));
    assert(tok_end(s, a) == tok_end(s, a + 1));
    lemma_tok_end_bounds(s, a + 1);
    assert(d > 0);
    assert(s2.len() == s.len() - d);
    assert forall|j: int| 0 <= j < s2.len() implies #[trigger] s2[j] == s[unshift(a, d, j)] by {
        if j < a {
            assert(s2[j] == s.subrange(0, a)[j]);
        } else {
            assert(s2[j] == s.subrange(b, s.len() as int)[j - a]);
        }
    }
    assert forall|j: int|
        0 <= j < s2.len() implies (#[trigger] tok_start(s2, j) <==> tok_start(
        s,
        unshift(a, d, j),
    )) by {
        assert(s2[j] == s[unshift(a, d, j)]);
        if j < a {
            if j > 0 {
                assert(s2[j - 1] == s[j - 1]);
            }
        } else if j == a {
            assert(s2[j] == s[b]);
            assert(is_space(s[b]));
        } else {
            assert(s2[j - 1] == s[j - 1 + d]);
        }
    }
    assert forall|j: int|
        0 <= j < s2.len() && #[trigger] tok_start(s2, j) implies token_at(s2, j) == token_at(
        s,
        unshift(a, d, j),
    ) by {
        if j < a {
            assert(s.subrange(j, a) =~= s2.subrange(j, a)) by {
                assert forall|k: int|
                    0 <= k < a - j implies s.subrange(j, a)[k] == s2.subrange(j, a)[k] by {
                    assert(s2[j + k] == s[unshift(a, d, j + k)]);
                }
            }
            assert(a >= 1 && is_space(s[a - 1]));
            assert(s[j + (a - j) - 1] == s[a - 1]);
            lemma_tok_end_agree(s, s2, j, j, a - j);
            lemma_tok_end_bounds(s, j);
            lemma_tok_end_bounds(s2, j);
            lemma_tok_end_le(s, j, a - 1);
            assert(token_at(s2, j) =~= token_at(s, j)) by {
                assert forall|k: int|
                    0 <= k < tok_end(s2, j) - j implies token_at(s2, j)[k] == token_at(s, j)[k] by {
                    assert(s2[j + k] == s[unshift(a, d, j + k)]);
                }
            }
        } else {
            let m = s2.len() - j;
            assert(s.subrange(j + d, s.len() as int) =~= s2.subrange(j, s2.len() as int)) by {
                assert forall|k: int|
                    0 <= k < m implies s.subrange(j + d, s.len() as int)[k] == s2.subrange(
                    j,
                    s2.len() as int,
                )[k] by {
                    assert(s2[j + k] == s[unshift(a, d, j + k)]);
                }
            }
            lemma_tok_end_agree(s, s2, j + d, j, m);
            lemma_tok_end_bounds(s, j + d);
            lemma_tok_end_bounds(s2, j);
            assert(token_at(s2, j) =~= token_at(s, j + d)) by {
                assert forall|k: int|
                    0 <= k < tok_end(s2, j) - j implies token_at(s2, j)[k] == token_at(
                    s,
                    j + d,
                )[k] by {
                    assert(s2[j + k] == s[unshift(a, d, j + k)]);
                }
            }
        }
    }
    assert forall|k: int|
        #[trigger] tok_start(s, k) && k != a implies 0 <= unstep(a, d, k) < s2.len() && tok_start(
            s2,
            unstep(a, d, k),
        ) && unshift(a, d, unstep(a, d, k)) == k by {
        if a < k && k < b {
            lemma_tok_chars(s, a, k - 1);
            assert(false);
        }
        if k == b {
            assert(is_space(s[b]));
            assert(false);
        }
        assert(k < a || b < k);
        if k < a {
            assert(unstep(a, d, k) == k);
            assert(unshift(a, d, k) == k);
            assert(tok_start(s2, k) <==> tok_start(s, k));
        } else {
            assert(unstep(a, d, k) == k - d);
            assert(unshift(a, d, k - d) == k);
            assert(tok_start(s2, k - d) <==> tok_start(s, k));
        }
    }
}

proof fn lemma_find_prio_char(s: Seq<char>, i: int)
    requires
        0 <= i <= s.len(),
    ensures
        match find_prio(s, i) {
            Some(j) => i <= j && prio_tok_at(s, j) && (forall|k: int|
                i <= k < j ==> !prio_tok_at(s, k)),
            None => forall|k: int| i <= k < s.len() ==> !prio_tok_at(s, k),
        },
    decreases s.len() - i,
{
    if i < s.len() && !(tok_start(s, i) && is_prio_tok(token_at(s, i))) {
        lemma_find_prio_char(s, i + 1);
    }
}

proof fn lemma_find_cat_char(s: Seq<char>, i: int)
    requires
        0 <= i <= s.len(),
    ensures
        match find_cat(s, i) {
            Some(j) => i <= j && tok_start(s, j) && is_cat_tok(token_at(s, j)) && (forall|k: int|
                i <= k < j ==> !(tok_start(s, k) && is_cat_tok(token_at(s, k)))),
            None => forall|k: int|
                i <= k < s.len() ==> !(tok_start(s, k) && is_cat_tok(token_at(s, k))),
        },
    decreases s.len() - i,
{
    if i < s.len() && !(tok_start(s, i) && is_cat_tok(token_at(s, i))) {
        lemma_find_cat_char(s, i + 1);
    }
}

proof fn lemma_find_date_char(s: Seq<char>, i: int)
    requires
        0 <= i <= s.len(),
    ensures
        match find_date(s, i) {
            Some(j) => i <= j && date_tok_at(s, j) && (forall|k: int|
                i <= k < j ==> !date_tok_at(s, k)),
            None => forall|k: int| i <= k < s.len() ==> !date_tok_at(s, k),
        },
    decreases s.len() - i,
{
    if i < s.len() && !(tok_start(s, i) && is_date_tok(token_at(s, i))) {
        lemma_find_date_char(s, i + 1);
    }
}

/// A raw description holding exactly one tag of each kind — one priority
/// tag, one category tag whose word is not reserved, one well-formed
/// due-date tag, each a whole token — parses with all three extracted, each
/// carrying the value its own tag denotes.
#[verifier::rlimit(100)]
pub proof fn lemma_parse_extracts_all(s: Seq<char>, ip: int, ic: int, idt: int)
    requires
        prio_tok_at(s, ip),
        cat_tok_at(s, ic),
        date_tok_at(s, idt),
        forall|k: int| #[trigger] prio_tok_at(s, k) ==> k == ip,
        forall|k: int| #[trigger] cat_tok_at(s, k) ==> k == ic,
        forall|k: int| #[trigger] date_tok_at(s, k) ==> k == idt,
    ensures
        spec_parse(s).priority == Some(prio_of_word(lower_seq(token_at(s, ip).skip(1)))),
        spec_parse(s).category == Some(cat_word(token_at(s, ic))),
        spec_parse(s).due_time == Some(dt_of_tok(token_at(s, idt))),
{
    // the three tag shapes exclude one another
    assert(ip != ic);
    assert(lower_seq(token_at(s, idt).skip(1)).len() == 16);
    assert(ip != idt) by {
        if ip == idt {
            assert(is_reserved_word(lower_seq(token_at(s, ip).skip(1))));
            assert(lower_seq(token_at(s, ip).skip(1)).len() == 16);
        }
    }
    assert(ic != idt) by {
        if ic == idt {
            assert(token_at(s, ic)[5] == '-');
            assert(is_word_char(token_at(s, ic)[5]));
        }
    }
    // the priority step finds and removes the priority tag
    lemma_find_prio_char(s, 0);
    assert(find_prio(s, 0) == Some(ip));
    let b1 = tok_end(s, ip);
    let d1 = b1 - ip;
    let s1 = remove_tok(s, ip);
    lemma_remove_tok_correspond(s, ip);
    assert(spec_parse(s).priority == Some(prio_of_word(lower_seq(token_at(s, ip).skip(1)))));
    // the category and due-date tags survive, shifted
    let jc1 = unstep(ip, d1, ic);
    assert(tok_start(s1, jc1) && unshift(ip, d1, jc1) == ic);
    assert(token_at(s1, jc1) == token_at(s, ic));
    let jd1 = unstep(ip, d1, idt);
    assert(tok_start(s1, jd1) && unshift(ip, d1, jd1) == idt);
    assert(token_at(s1, jd1) == token_at(s, idt));
    // the category step finds a category-shaped token; it cannot be a
    // reserved one, for that would be a second priority tag in the original
    lemma_find_cat_char(s1, 0);
    assert(find_cat(s1, 0) is Some) by {
        assert(tok_start(s1, jc1) && is_cat_tok(token_at(s1, jc1)));
    }
    let jc = find_cat(s1, 0)->Some_0;
    assert(!is_reserved_word(cat_word(token_at(s1, jc)))) by {
        if is_reserved_word(cat_word(token_at(s1, jc))) {
            assert(is_prio_tok(token_at(s1, jc)));
            assert(tok_start(s, unshift(ip, d1, jc)));
            assert(token_at(s, unshift(ip, d1, jc)) == token_at(s1, jc));
            assert(prio_tok_at(s, unshift(ip, d1, jc)));
            assert(unshift(ip, d1, jc) == ip);
        }
    }
    assert(jc == jc1) by {
        assert(cat_tok_at(s1, jc));
        assert(tok_start(s, unshift(ip, d1, jc)));
        assert(token_at(s, unshift(ip, d1, jc)) == token_at(s1, jc));
        assert(cat_tok_at(s, unshift(ip, d1, jc)));
        assert(unshift(ip, d1, jc) == ic);
    }
    assert(spec_parse(s).category == Some(cat_word(token_at(s, ic))));
    // the due-date tag survives the category removal too
    let b2 = tok_end(s1, jc);
    let d2 = b2 - jc;
    let s2 = remove_tok(s1, jc);
    lemma_remove_tok_correspond(s1, jc);
    assert(jd1 != jc) by {
        if jd1 == jc {
            assert(token_at(s1, jc)[5] == '-');
            assert(is_word_char(token_at(s1, jc)[5]));
        }
    }
    let jd2 = unstep(jc, d2, jd1);
    assert(tok_start(s2, jd2) && unshift(jc, d2, jd2) == jd1);
    assert(token_at(s2, jd2) == token_at(s, idt));
    lemma_find_date_char(s2, 0);
    assert(find_date(s2, 0) is Some) by {
        assert(tok_start(s2, jd2) && is_date_tok(token_at(s2, jd2)));
        assert(date_tok_at(s2, jd2));
    }
    let jd = find_date(s2, 0)->Some_0;
    assert(token_at(s2, jd) == token_at(s, idt)) by {
        assert(date_tok_at(s2, jd));
        let u1 = unshift(jc, d2, jd);
        assert(tok_start(s1, u1));
        assert(token_at(s1, u1) == token_at(s2, jd));
        let u0 = unshift(ip, d1, u1);
        assert(tok_start(s, u0));
        assert(token_at(s, u0) == token_at(s1, u1));
        assert(date_tok_at(s, u0));
        assert(u0 == idt);
    }
    assert(spec_parse(s).due_time == Some(dt_of_tok(token_at(s, idt))));
}

/// Lexicographic order on character sequences, by scalar value.
pub open spec fn lex_le(a: Seq<char>, b: Seq<char>) -> bool
    decreases a.len(),
{
    if a.len() == 0 {
        true
    } else if b.len() == 0 {
        false
    } else if a[0] == b[0] {
        lex_le(a.skip(1), b.skip(1))
    } else {
        a[0] < b[0]
    }
}

/// Any two sequences are ordered one way or the other.
pub proof fn lemma_lex_total(a: Seq<char>, b: Seq<char>)
    ensures
        lex_le(a, b) || lex_le(b, a),
    decreases a.len(),
{
    if a.len() > 0 && b.len() > 0 && a[0] == b[0] {
        lemma_lex_total(a.skip(1), b.skip(1));
    }
}

/// The order is transitive.
pub proof fn lemma_lex_trans(a: Seq<char>, b: Seq<char>, c: Seq<char>)
    requires
        lex_le(a, b),
        lex_le(b, c),
    ensures
        lex_le(a, c),
    decreases a.len(),
{
    if a.len() > 0 && b.len() > 0 && c.len() > 0 && a[0] == b[0] && b[0] == c[0] {
        lemma_lex_trans(a.skip(1), b.skip(1), c.skip(1));
    }
}

/// Compares two character vectors lexicographically.
pub fn lex_le_exec(a: &Vec<char>, b: &Vec<char>) -> (r: bool)
    ensures
        r == lex_le(a@, b@),
{
    let mut i: usize = 0;
    assert(a@.skip(0) =~= a@);
    assert(b@.skip(0) =~= b@);
    while i < a.len() && i < b.len() && a[i] == b[i]
        invariant
            i <= a@.len(),
            i <= b@.len(),
            lex_le(a@, b@) == lex_le(a@.skip(i as int), b@.skip(i as int)),
        decreases a.len() - i,
    {
        proof {
            let sa = a@.skip(i as int);
            let sb = b@.skip(i as int);
            assert(sa[0] == a@[i as int]);
            assert(sb[0] == b@[i as int]);
            assert(sa.skip(1) =~= a@.skip(i as int + 1));
            assert(sb.skip(1) =~= b@.skip(i as int + 1));
        }
        i += 1;
    }
    proof {
        let sa = a@.skip(i as int);
        let sb = b@.skip(i as int);
        if i < a.len() && i < b.len() {
            assert(sa[0] == a@[i as int]);
            assert(sb[0] == b@[i as int]);
        }
    }
    if i >= a.len() {
        true
    } else if i >= b.len() {
        false
    } else {
        a[i] < b[i]
    }
}

/// Whether `needle` occurs contiguously inside `hay`.
pub open spec fn is_substring(needle: Seq<char>, hay: Seq<char>) -> bool {
    exists|j: int|
        0 <= j <= hay.len() - needle.len() && #[trigger] hay.subrange(j, j + needle.len())
            == needle
}

/// Substring search, by direct comparison at every position.
pub fn contains_sub(needle: &Vec<char>, hay: &Vec<char>) -> (r: bool)
    ensures
        r == is_substring(needle@, hay@),
{
    if needle.len() > hay.len() {
        return false;
    }
    let mut j: usize = 0;
    while j <= hay.len() - needle.len()
        invariant
            needle@.len() <= hay@.len(),
            j <= hay@.len() - needle@.len() + 1,
            forall|m: int|
                0 <= m < j ==> #[trigger] hay@.subrange(m, m + needle@.len()) != needle@,
        decreases hay.len() - needle.len() - j + 1,
    {
        let mut k: usize = 0;
        let mut ok = true;
        while k < needle.len()
            invariant
                j + needle@.len() <= hay@.len(),
                hay@.len() <= usize::MAX,
                k <= needle@.len(),
                ok == (forall|t: int| 0 <= t < k ==> hay@[j + t] == needle@[t]),
            decreases needle.len() - k,
        {
            if hay[j + k] != needle[k] {
                ok = false;
            }
            k += 1;
        }
        if ok {
            assert(hay@.subrange(j as int, j + needle@.len()) =~= needle@);
            return true;
        }
        proof {
            let t = choose|t: int| 0 <= t < needle@.len() && hay@[j + t] != needle@[t];
            assert(hay@.subrange(j as int, j + needle@.len())[t] == hay@[j + t]);
        }
        j += 1;
    }
    false
}

// ---------------------------------------------------------------------------
// Executable scans for the first tag of each kind
// ---------------------------------------------------------------------------

/// Finds the first priority tag: its start, its end, and the priority it
/// denotes.
fn find_prio_exec(s: &Vec<char>) -> (r: Option<(usize, usize, Priority)>)
    ensures
        match r {
            None => find_prio(s@, 0) is None,
            Some((i, j, p)) => find_prio(s@, 0) == Some(i as int) && j == tok_end(s@, i as int) && i
                <= j <= s@.len() && p == prio_of_word(lower_seq(token_at(s@, i as int).skip(1))),
        },
{
    let mut i: usize = 0;
    while i < s.len()
        invariant
            i <= s@.len(),
            find_prio(s@, 0) == find_prio(s@, i as int),
        decreases s.len() - i,
    {
        let starts = !is_space_c(s[i]) && (i == 0 || is_space_c(s[i - 1]));
        if starts {
            let j = token_end_at(s, i);
            let t = subvec(s, i, j);
            assert(t@ == token_at(s@, i as int));
            if t.len() >= 1 && t[0] == '#' {
                let w = subvec(&t, 1, t.len());
                assert(w@ =~= t@.skip(1));
                let lw = lower_vec(&w);
                if is_reserved_exec(&lw) {
                    assert(is_prio_tok(token_at(s@, i as int)));
                    let p = prio_of_word_exec(&lw);
                    return Some((i, j, p));
                }
            }
            assert(!is_prio_tok(token_at(s@, i as int)));
        }
        i += 1;
    }
    None
}

/// Finds the first category-shaped tag: its start, its end, and its word,
/// lower-cased. The reserved-keyword collision rule is the caller's step.
fn find_cat_exec(s: &Vec<char>) -> (r: Option<(usize, usize, Vec<char>)>)
    ensures
        match r {
            None => find_cat(s@, 0) is None,
            Some((i, j, w)) => find_cat(s@, 0) == Some(i as int) && j == tok_end(s@, i as int) && i
                <= j <= s@.len() && w@ == cat_word(token_at(s@, i as int)),
        },
{
    let mut i: usize = 0;
    while i < s.len()
        invariant
            i <= s@.len(),
            find_cat(s@, 0) == find_cat(s@, i as int),
        decreases s.len() - i,
    {
        let starts = !is_space_c(s[i]) && (i == 0 || is_space_c(s[i - 1]));
        if starts {
            let j = token_end_at(s, i);
            let t = subvec(s, i, j);
            assert(t@ == token_at(s@, i as int));
            if t.len() >= 2 && t[0] == '#' {
                let mut all_word = true;
                let mut k: usize = 1;
                while k < t.len()
                    invariant
                        1 <= k <= t@.len(),
                        all_word == (forall|m: int| 1 <= m < k ==> is_word_char(t@[m])),
                    decreases t.len() - k,
                {
                    if !is_word_char_c(t[k]) {
                        all_word = false;
                    }
                    k += 1;
                }
                if all_word {
                    assert(is_cat_tok(token_at(s@, i as int)));
                    let w = subvec(&t, 1, t.len());
                    assert(w@ =~= t@.skip(1));
                    let lw = lower_vec(&w);
                    return Some((i, j, lw));
                }
            }
            assert(!is_cat_tok(token_at(s@, i as int)));
        }
        i += 1;
    }
    None
}

fn is_digit_c(c: char) -> (r: bool)
    ensures
        r == is_digit(c),
{
    '0' <= c && c <= '9'
}

fn digit_of(c: char) -> (r: u32)
    requires
        is_digit(c),
    ensures
        r == digit_val(c),
        r <= 9,
{
    (c as u8 - 48) as u32
}

fn is_leap_year_exec(y: u16) -> (r: bool)
    ensures
        r == crate::task::is_leap_year(y as int),
{
    y % 4 == 0 && (y % 100 != 0 || y % 400 == 0)
}

pub fn days_in_month_exec(y: u16, m: u8) -> (r: u8)
    requires
        1 <= m <= 12,
    ensures
        r == days_in_month(y as int, m as int),
{
    if m == 1 || m == 3 || m == 5 || m == 7 || m == 8 || m == 10 || m == 12 {
        31
    } else if m == 4 || m == 6 || m == 9 || m == 11 {
        30
    } else if is_leap_year_exec(y) {
        29
    } else {
        28
    }
}

/// Checks a token against the due-date pattern and the calendar.
fn check_date_tok(t: &Vec<char>) -> (r: Option<DateTime>)
    ensures
        match r {
            Some(dt) => is_date_tok(t@) && dt == dt_of_tok(t@),
            None => !is_date_tok(t@),
        },
{
    if t.len() != 17 {
        return None;
    }
    if !(t[0] == '#' && is_digit_c(t[1]) && is_digit_c(t[2]) && is_digit_c(t[3]) && is_digit_c(t[4])
        && t[5] == '-' && is_digit_c(t[6]) && is_digit_c(t[7]) && t[8] == '-' && is_digit_c(t[9])
        && is_digit_c(t[10]) && t[11] == '_' && is_digit_c(t[12]) && is_digit_c(t[13]) && t[14]
        == ':' && is_digit_c(t[15]) && is_digit_c(t[16])) {
        return None;
    }
    assert(date_shape(t@));
    let year_n: u32 = digit_of(t[1]) * 1000 + digit_of(t[2]) * 100 + digit_of(t[3]) * 10
        + digit_of(t[4]);
    let month_n: u32 = digit_of(t[6]) * 10 + digit_of(t[7]);
    let day_n: u32 = digit_of(t[9]) * 10 + digit_of(t[10]);
    let hour_n: u32 = digit_of(t[12]) * 10 + digit_of(t[13]);
    let minute_n: u32 = digit_of(t[15]) * 10 + digit_of(t[16]);
    let dt = DateTime {
        year: year_n as u16,
        month: month_n as u8,
        day: day_n as u8,
        hour: hour_n as u8,
        minute: minute_n as u8,
    };
    assert(dt == dt_of_tok(t@));
    if dt.month < 1 || dt.month > 12 {
        return None;
    }
    if dt.day < 1 || dt.day > days_in_month_exec(dt.year, dt.month) {
        return None;
    }
    if dt.hour > 23 || dt.minute > 59 {
        return None;
    }
    assert(dt_valid(dt));
    Some(dt)
}

/// Finds the first due-date tag: its start, its end, and the date and time it
/// denotes.
fn find_date_exec(s: &Vec<char>) -> (r: Option<(usize, usize, DateTime)>)
    ensures
        match r {
            None => find_date(s@, 0) is None,
            Some((i, j, dt)) => find_date(s@, 0) == Some(i as int) && j == tok_end(s@, i as int)
                && i <= j <= s@.len() && dt == dt_of_tok(token_at(s@, i as int)),
        },
{
    let mut i: usize = 0;
    while i < s.len()
        invariant
            i <= s@.len(),
            find_date(s@, 0) == find_date(s@, i as int),
        decreases s.len() - i,
    {
        let starts = !is_space_c(s[i]) && (i == 0 || is_space_c(s[i - 1]));
        if starts {
            let j = token_end_at(s, i);
            let t = subvec(s, i, j);
            assert(t@ == token_at(s@, i as int));
            match check_date_tok(&t) {
                Some(dt) => {
                    return Some((i, j, dt));
                },
                None => {
                    assert(!is_date_tok(token_at(s@, i as int)));
                },
            }
        }
        i += 1;
    }
    None
}

// ---------------------------------------------------------------------------
// The parser
// ---------------------------------------------------------------------------

/// Result of parsing one raw description.
pub struct Parsed {
    pub clean: Vec<char>,
    pub category: Option<Vec<char>>,
    pub due_time: Option<DateTime>,
    pub priority: Option<Priority>,
}

impl View for Parsed {
    type V = ParsedView;

    open spec fn view(&self) -> ParsedView {
        ParsedView {
            clean: self.clean@,
            category: match self.category {
                Some(c) => Some(c@),
                None => None,
            },
            due_time: self.due_time,
            priority: self.priority,
        }
    }
}

/// Extracts at most one tag of each kind from a raw description: the first
/// priority tag, then the first category tag of the rest (left untouched if
/// its word is a reserved priority keyword), then the first well-formed
/// due-date tag of what remains; the extracted tags are deleted and the rest,
/// trimmed of leading and trailing whitespace, is the clean description.
/// Total: malformed tags are simply not extracted.
pub fn parse_task_description(raw: &Vec<char>) -> (r: Parsed)
    ensures
        r@ == spec_parse(raw@),
{
    let ghost s0 = raw@;
    let mut priority: Option<Priority> = None;
    let s1: Vec<char> = match find_prio_exec(raw) {
        Some((i, j, p)) => {
            priority = Some(p);
            remove_range(raw, i, j)
        },
        None => crate::task::copy_chars(raw),
    };
    assert((s1@, priority) == step_prio(s0));
    let mut category: Option<Vec<char>> = None;
    let s2: Vec<char> = match find_cat_exec(&s1) {
        Some((i, j, w)) => {
            if is_reserved_exec(&w) {
                crate::task::copy_chars(&s1)
            } else {
                let removed = remove_range(&s1, i, j);
                category = Some(w);
                removed
            }
        },
        None => crate::task::copy_chars(&s1),
    };
    assert((s2@,
    match category {
        Some(ref c) => Some(c@),
        None => None::<Seq<char>>,
    }) == step_cat(s1@));
    let mut due_time: Option<DateTime> = None;
    let s3: Vec<char> = match find_date_exec(&s2) {
        Some((i, j, dt)) => {
            due_time = Some(dt);
            remove_range(&s2, i, j)
        },
        None => crate::task::copy_chars(&s2),
    };
    assert((s3@, due_time) == step_date(s2@));
    let clean = trim_vec(&s3);
    let r = Parsed { clean, category, due_time, priority };
    assert(r@ == spec_parse(s0));
    r
}

} // verus!
