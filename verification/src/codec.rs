use crate::store::StoreError;
use crate::task::{dt_valid, DateTime, Priority, Task, TaskStatus, TaskView};
use vstd::prelude::*;

verus! {

broadcast use vstd::std_specs::vec::axiom_spec_len;

// ---------------------------------------------------------------------------
// The on-disk representation: one JSON array of task records, pretty-printed
// with two-space indentation, overwritten wholesale on every save. Every
// value in a record is a string or null, so the grammar needed here is small.
// The current schema has a `priority` field; the legacy schema is the same
// record without it.
// ---------------------------------------------------------------------------
// Rendering of numbers and identifiers
// ---------------------------------------------------------------------------

pub open spec fn digit_ch(n: int) -> char {
    ((48 + n) as u8) as char
}

pub open spec fn hex_ch(n: int) -> char {
    if n < 10 {
        digit_ch(n)
    } else {
        ((87 + n) as u8) as char
    }
}

/// Two decimal digits, zero-padded.
pub open spec fn d2(n: int) -> Seq<char> {
    seq![digit_ch(n / 10), digit_ch(n % 10)]
}

/// Four decimal digits, zero-padded.
pub open spec fn d4(n: int) -> Seq<char> {
    seq![digit_ch(n / 1000), digit_ch((n / 100) % 10), digit_ch((n / 10) % 10), digit_ch(n % 10)]
}

/// A due time as stored: date, `T`, time of day with seconds, which are
/// always zero at minute precision.
pub open spec fn dt_chars(dt: DateTime) -> Seq<char> {
    d4(dt.year as int) + seq!['-'] + d2(dt.month as int) + seq!['-'] + d2(dt.day as int) + seq![
        'T',
    ] + d2(dt.hour as int) + seq![':'] + d2(dt.minute as int) + seq![':', '0', '0']
}

pub open spec fn pow16(e: nat) -> int
    decreases e,
{
    if e == 0 {
        1
    } else {
        16 * pow16((e - 1) as nat)
    }
}

/// The 32 hexadecimal digits of an id, most significant first.
pub open spec fn uuid_digits(id: u128) -> Seq<char> {
    Seq::new(32, |k: int| hex_ch((id as int / pow16((31 - k) as nat)) % 16))
}

/// An id as stored: the 32 digits in the conventional 8-4-4-4-12 grouping.
pub open spec fn uuid_chars(id: u128) -> Seq<char> {
    let d = uuid_digits(id);
    d.subrange(0, 8) + seq!['-'] + d.subrange(8, 12) + seq!['-'] + d.subrange(12, 16) + seq![
        '-',
    ] + d.subrange(16, 20) + seq!['-'] + d.subrange(20, 32)
}

// ---------------------------------------------------------------------------
// String escaping
// ---------------------------------------------------------------------------

/// How one character appears inside a stored string literal: quote and
/// backslash are escaped, the common control characters get their short
/// escapes, other control characters a four-digit escape, and everything else
/// stands for itself.
pub open spec fn esc1(c: char) -> Seq<char> {
    if c == '"' {
        seq!['\\', '"']
    } else if c == '\\' {
        seq!['\\', '\\']
    } else if c == '\n' {
        seq!['\\', 'n']
    } else if c == '\r' {
        seq!['\\', 'r']
    } else if c == '\t' {
        seq!['\\', 't']
    } else if (c as u32) == 8 {
        seq!['\\', 'b']
    } else if (c as u32) == 12 {
        seq!['\\', 'f']
    } else if (c as u32) < 32 {
        seq!['\\', 'u', '0', '0', hex_ch((c as u32) as int / 16), hex_ch((c as u32) as int % 16)]
    } else {
        seq![c]
    }
}

pub open spec fn escape(s: Seq<char>) -> Seq<char>
    decreases s.len(),
{
    if s.len() == 0 {
        Seq::empty()
    } else {
        escape(s.drop_last()) + esc1(s.last())
    }
}

/// Escaping also proceeds one character at a time from the front.
pub proof fn lemma_escape_head(s: Seq<char>)
    requires
        s.len() > 0,
    ensures
        escape(s) == esc1(s[0]) + escape(s.skip(1)),
    decreases s.len(),
{
    if s.len() == 1 {
        assert(s.drop_last().len() == 0);
        assert(s.skip(1).len() == 0);
        assert(escape(s.drop_last()) == Seq::<char>::empty());
        assert(escape(s.skip(1)) == Seq::<char>::empty());
        assert(s.last() == s[0]);
        assert(escape(s) == escape(s.drop_last()) + esc1(s.last()));
        assert(escape(s) =~= esc1(s[0]) + escape(s.skip(1)));
    } else {
        lemma_escape_head(s.drop_last());
        assert(s.skip(1).drop_last() =~= s.drop_last().skip(1));
        assert(s.skip(1).last() == s.last());
        assert(s.drop_last()[0] == s[0]);
        assert(escape(s.skip(1)) == escape(s.skip(1).drop_last()) + esc1(s.skip(1).last()));
        assert(escape(s) =~= esc1(s[0]) + escape(s.skip(1)));
    }
}

// ---------------------------------------------------------------------------
// Record and document rendering
// ---------------------------------------------------------------------------

pub open spec fn lit_arr_empty() -> Seq<char> {
    seq!['[', ']']
}

pub open spec fn lit_arr_open() -> Seq<char> {
    seq!['[', '\n']
}

pub open spec fn lit_arr_close() -> Seq<char> {
    seq!['\n', ']']
}

pub open spec fn lit_obj_open() -> Seq<char> {
    seq![' ', ' ', '{', '\n']
}

pub open spec fn lit_obj_close() -> Seq<char> {
    seq!['\n', ' ', ' ', '}']
}

pub open spec fn lit_sep() -> Seq<char> {
    seq![',', '\n']
}

pub open spec fn lit_null() -> Seq<char> {
    seq!['n', 'u', 'l', 'l']
}

pub open spec fn lit_key_id() -> Seq<char> {
    seq![' ', ' ', ' ', ' ', '"', 'i', 'd', '"', ':', ' ']
}

pub open spec fn lit_key_desc() -> Seq<char> {
    seq![
        ' ',
        ' ',
        ' ',
        ' ',
        '"',
        'd',
        'e',
        's',
        'c',
        'r',
        'i',
        'p',
        't',
        'i',
        'o',
        'n',
        '"',
        ':',
        ' ',
    ]
}

pub open spec fn lit_key_status() -> Seq<char> {
    seq![' ', ' ', ' ', ' ', '"', 's', 't', 'a', 't', 'u', 's', '"', ':', ' ']
}

pub open spec fn lit_key_cat() -> Seq<char> {
    seq![' ', ' ', ' ', ' ', '"', 'c', 'a', 't', 'e', 'g', 'o', 'r', 'y', '"', ':', ' ']
}

pub open spec fn lit_key_due() -> Seq<char> {
    seq![' ', ' ', ' ', ' ', '"', 'd', 'u', 'e', '_', 't', 'i', 'm', 'e', '"', ':', ' ']
}

pub open spec fn lit_key_prio() -> Seq<char> {
    seq![' ', ' ', ' ', ' ', '"', 'p', 'r', 'i', 'o', 'r', 'i', 't', 'y', '"', ':', ' ']
}

pub open spec fn status_word(s: TaskStatus) -> Seq<char> {
    match s {
        TaskStatus::Todo => seq!['T', 'o', 'd', 'o'],
        TaskStatus::Doing => seq!['D', 'o', 'i', 'n', 'g'],
        TaskStatus::Done => seq!['D', 'o', 'n', 'e'],
    }
}

pub open spec fn prio_word(p: Priority) -> Seq<char> {
    match p {
        Priority::Low => seq!['L', 'o', 'w'],
        Priority::Medium => seq!['M', 'e', 'd', 'i', 'u', 'm'],
        Priority::High => seq!['H', 'i', 'g', 'h'],
    }
}

pub open spec fn quoted(s: Seq<char>) -> Seq<char> {
    seq!['"'] + s + seq!['"']
}

pub open spec fn ser_str(s: Seq<char>) -> Seq<char> {
    quoted(escape(s))
}

pub open spec fn ser_opt_str(c: Option<Seq<char>>) -> Seq<char> {
    match c {
        None => lit_null(),
        Some(s) => ser_str(s),
    }
}

pub open spec fn ser_opt_dt(d: Option<DateTime>) -> Seq<char> {
    match d {
        None => lit_null(),
        Some(dt) => quoted(dt_chars(dt)),
    }
}

/// One record under the current schema.
pub open spec fn ser_task(t: TaskView) -> Seq<char> {
    lit_obj_open() + lit_key_id() + quoted(uuid_chars(t.id)) + lit_sep() + lit_key_desc()
        + ser_str(t.description) + lit_sep() + lit_key_status() + quoted(status_word(t.status))
        + lit_sep() + lit_key_cat() + ser_opt_str(t.category) + lit_sep() + lit_key_due()
        + ser_opt_dt(t.due_time) + lit_sep() + lit_key_prio() + quoted(prio_word(t.priority))
        + lit_obj_close()
}

/// One record under the legacy schema: the same fields minus the priority.
pub open spec fn ser_task_legacy(t: TaskView) -> Seq<char> {
    lit_obj_open() + lit_key_id() + quoted(uuid_chars(t.id)) + lit_sep() + lit_key_desc()
        + ser_str(t.description) + lit_sep() + lit_key_status() + quoted(status_word(t.status))
        + lit_sep() + lit_key_cat() + ser_opt_str(t.category) + lit_sep() + lit_key_due()
        + ser_opt_dt(t.due_time) + lit_obj_close()
}

pub open spec fn ser_list(ts: Seq<TaskView>, legacy: bool) -> Seq<char>
    decreases ts.len(),
{
    if ts.len() == 0 {
        Seq::empty()
    } else {
        ser_list(ts.drop_last(), legacy) + (if ts.len() == 1 {
            Seq::empty()
        } else {
            lit_sep()
        }) + (if legacy {
            ser_task_legacy(ts.last())
        } else {
            ser_task(ts.last())
        })
    }
}

/// The whole persisted document for a collection, under either schema.
pub open spec fn ser_doc(ts: Seq<TaskView>, legacy: bool) -> Seq<char> {
    if ts.len() == 0 {
        lit_arr_empty()
    } else {
        lit_arr_open() + ser_list(ts, legacy) + lit_arr_close()
    }
}

/// What `save_tasks` writes: the current-schema document.
pub open spec fn spec_save(ts: Seq<TaskView>) -> Seq<char> {
    ser_doc(ts, false)
}

// ---------------------------------------------------------------------------
// The reader, as a mathematical function: a deterministic recursive descent
// over the exact document layout the writer produces. Each piece reads a
// value and reports the position after it, or rejects the text.
// ---------------------------------------------------------------------------

/// Whether `frag` stands at position `i` of `s`.
pub open spec fn at(s: Seq<char>, i: int, frag: Seq<char>) -> bool {
    0 <= i && i + frag.len() <= s.len() && s.subrange(i, i + frag.len()) == frag
}

pub open spec fn p_exact(s: Seq<char>, i: int, frag: Seq<char>) -> Option<int> {
    if at(s, i, frag) {
        Some(i + frag.len())
    } else {
        None
    }
}

/// The character a short escape stands for.
pub open spec fn unesc(e: char) -> Option<char> {
    if e == '"' {
        Some('"')
    } else if e == '\\' {
        Some('\\')
    } else if e == '/' {
        Some('/')
    } else if e == 'n' {
        Some('\n')
    } else if e == 'r' {
        Some('\r')
    } else if e == 't' {
        Some('\t')
    } else if e == 'b' {
        Some(8u8 as char)
    } else if e == 'f' {
        Some(12u8 as char)
    } else {
        None
    }
}

pub open spec fn is_hexd(c: char) -> bool {
    crate::tags::is_digit(c) || ('a' <= c && c <= 'f')
}

pub open spec fn hexv(c: char) -> int {
    if crate::tags::is_digit(c) {
        crate::tags::digit_val(c)
    } else {
        (c as u8) as int - 87
    }
}

/// Reads the body of a string literal, after its opening quote, up to and
/// including its closing quote.
pub open spec fn p_strbody(s: Seq<char>, i: int) -> Option<(Seq<char>, int)>
    decreases s.len() - i,
{
    if i < 0 || i >= s.len() {
        None
    } else if s[i] == '"' {
        Some((Seq::empty(), i + 1))
    } else if s[i] == '\\' {
        if i + 1 >= s.len() {
            None
        } else if s[i + 1] == 'u' {
            if i + 6 <= s.len() && s[i + 2] == '0' && s[i + 3] == '0' && is_hexd(s[i + 4])
                && is_hexd(s[i + 5]) && hexv(s[i + 4]) * 16 + hexv(s[i + 5]) < 32 {
                match p_strbody(s, i + 6) {
                    Some((rest, j)) => Some(
                        (seq![((hexv(s[i + 4]) * 16 + hexv(s[i + 5])) as u8) as char] + rest, j),
                    ),
                    None => None,
                }
            } else {
                None
            }
        } else {
            match unesc(s[i + 1]) {
                Some(c) => match p_strbody(s, i + 2) {
                    Some((rest, j)) => Some((seq![c] + rest, j)),
                    None => None,
                },
                None => None,
            }
        }
    } else {
        match p_strbody(s, i + 1) {
            Some((rest, j)) => Some((seq![s[i]] + rest, j)),
            None => None,
        }
    }
}

/// Reads a whole string literal.
pub open spec fn p_string(s: Seq<char>, i: int) -> Option<(Seq<char>, int)> {
    if 0 <= i && i < s.len() && s[i] == '"' {
        p_strbody(s, i + 1)
    } else {
        None
    }
}

/// The 8-4-4-4-12 shape of a stored id.
pub open spec fn uuid_shape(u: Seq<char>) -> bool {
    u.len() == 36 && u[8] == '-' && u[13] == '-' && u[18] == '-' && u[23] == '-' && (forall|k: int|
        0 <= k < 36 && k != 8 && k != 13 && k != 18 && k != 23 ==> is_hexd(#[trigger] u[k]))
}

pub open spec fn hex_digits_of(u: Seq<char>) -> Seq<char> {
    u.subrange(0, 8) + u.subrange(9, 13) + u.subrange(14, 18) + u.subrange(19, 23) + u.subrange(
        24,
        36,
    )
}

/// Value of a big-endian sequence of hexadecimal digits.
pub open spec fn hexval(d: Seq<char>) -> int
    decreases d.len(),
{
    if d.len() == 0 {
        0
    } else {
        hexval(d.drop_last()) * 16 + hexv(d.last())
    }
}

/// A successful read never reports a position past the end of the text.
proof fn lemma_strbody_end(s: Seq<char>, i: int)
    ensures
        match p_strbody(s, i) {
            Some((v, end)) => i < end <= s.len(),
            None => true,
        },
    decreases s.len() - i,
{
    if 0 <= i && i < s.len() {
        if s[i] == '"' {
        } else if s[i] == '\\' {
            if i + 1 < s.len() {
                if s[i + 1] == 'u' {
                    if i + 6 <= s.len() {
                        lemma_strbody_end(s, i + 6);
                    }
                } else {
                    lemma_strbody_end(s, i + 2);
                }
            }
        } else {
            lemma_strbody_end(s, i + 1);
        }
    }
}

#[verifier::rlimit(100)]
proof fn lemma_task_end(s: Seq<char>, i: int, legacy: bool)
    ensures
        match p_task(s, i, legacy) {
            Some((t, end)) => i < end <= s.len(),
            None => true,
        },
{
    match p_exact(s, i, lit_obj_open() + lit_key_id()) {
        None => {},
        Some(j0) => match p_uuid(s, j0) {
            None => {},
            Some((id, j1)) => match p_exact(s, j1, lit_sep() + lit_key_desc()) {
                None => {},
                Some(j2) => {
                    lemma_strbody_end(s, j2 + 1);
                    match p_string(s, j2) {
                        None => {},
                        Some((desc, j3)) => match p_exact(s, j3, lit_sep() + lit_key_status()) {
                            None => {},
                            Some(j4) => match p_status(s, j4) {
                                None => {},
                                Some((st, j5)) => match p_exact(s, j5, lit_sep() + lit_key_cat()) {
                                    None => {},
                                    Some(j6) => {
                                        lemma_strbody_end(s, j6 + 1);
                                        match p_opt_str(s, j6) {
                                            None => {},
                                            Some((cat, j7)) => match p_exact(
                                                s,
                                                j7,
                                                lit_sep() + lit_key_due(),
                                            ) {
                                                None => {},
                                                Some(j8) => match p_opt_dt(s, j8) {
                                                    None => {},
                                                    Some((due, j9)) => {},
                                                },
                                            },
                                        }
                                    },
                                },
                            },
                        },
                    }
                },
            },
        },
    }
}

proof fn lemma_list_end(s: Seq<char>, i: int, legacy: bool)
    ensures
        match p_list(s, i, legacy) {
            Some((ts, end)) => i < end <= s.len(),
            None => true,
        },
    decreases s.len() - i,
{
    lemma_task_end(s, i, legacy);
    match p_task(s, i, legacy) {
        None => {},
        Some((t, j)) => {
            if at(s, j, lit_sep()) && j + 2 > i {
                lemma_list_end(s, j + 2, legacy);
            }
        },
    }
}

/// Reads a quoted id.
pub open spec fn p_uuid(s: Seq<char>, i: int) -> Option<(u128, int)> {
    if 0 <= i && i + 38 <= s.len() && s[i] == '"' && s[i + 37] == '"' && uuid_shape(
        s.subrange(i + 1, i + 37),
    ) {
        Some(((hexval(hex_digits_of(s.subrange(i + 1, i + 37))) as u128), i + 38))
    } else {
        None
    }
}

/// Reads a quoted due time, seconds included, and checks it on the calendar.
pub open spec fn p_dt(s: Seq<char>, i: int) -> Option<(DateTime, int)> {
    if 0 <= i && i + 21 <= s.len() {
        let u = s.subrange(i, i + 21);
        if u[0] == '"' && u[20] == '"' && crate::tags::is_digit(u[1]) && crate::tags::is_digit(u[2])
            && crate::tags::is_digit(u[3]) && crate::tags::is_digit(u[4]) && u[5] == '-'
            && crate::tags::is_digit(u[6]) && crate::tags::is_digit(u[7]) && u[8] == '-'
            && crate::tags::is_digit(u[9]) && crate::tags::is_digit(u[10]) && u[11] == 'T'
            && crate::tags::is_digit(u[12]) && crate::tags::is_digit(u[13]) && u[14] == ':'
            && crate::tags::is_digit(u[15]) && crate::tags::is_digit(u[16]) && u[17] == ':' && u[18]
            == '0' && u[19] == '0' {
            let dt = DateTime {
                year: (crate::tags::digit_val(u[1]) * 1000 + crate::tags::digit_val(u[2]) * 100
                    + crate::tags::digit_val(u[3]) * 10 + crate::tags::digit_val(u[4])) as u16,
                month: (crate::tags::digit_val(u[6]) * 10 + crate::tags::digit_val(u[7])) as u8,
                day: (crate::tags::digit_val(u[9]) * 10 + crate::tags::digit_val(u[10])) as u8,
                hour: (crate::tags::digit_val(u[12]) * 10 + crate::tags::digit_val(u[13])) as u8,
                minute: (crate::tags::digit_val(u[15]) * 10 + crate::tags::digit_val(u[16])) as u8,
            };
            if dt_valid(dt) {
                Some((dt, i + 21))
            } else {
                None
            }
        } else {
            None
        }
    } else {
        None
    }
}

pub open spec fn p_status(s: Seq<char>, i: int) -> Option<(TaskStatus, int)> {
    if at(s, i, quoted(status_word(TaskStatus::Todo))) {
        Some((TaskStatus::Todo, i + 6))
    } else if at(s, i, quoted(status_word(TaskStatus::Doing))) {
        Some((TaskStatus::Doing, i + 7))
    } else if at(s, i, quoted(status_word(TaskStatus::Done))) {
        Some((TaskStatus::Done, i + 6))
    } else {
        None
    }
}

pub open spec fn p_prio(s: Seq<char>, i: int) -> Option<(Priority, int)> {
    if at(s, i, quoted(prio_word(Priority::Low))) {
        Some((Priority::Low, i + 5))
    } else if at(s, i, quoted(prio_word(Priority::Medium))) {
        Some((Priority::Medium, i + 8))
    } else if at(s, i, quoted(prio_word(Priority::High))) {
        Some((Priority::High, i + 6))
    } else {
        None
    }
}

pub open spec fn p_opt_str(s: Seq<char>, i: int) -> Option<(Option<Seq<char>>, int)> {
    if at(s, i, lit_null()) {
        Some((None, i + 4))
    } else {
        match p_string(s, i) {
            Some((v, j)) => Some((Some(v), j)),
            None => None,
        }
    }
}

pub open spec fn p_opt_dt(s: Seq<char>, i: int) -> Option<(Option<DateTime>, int)> {
    if at(s, i, lit_null()) {
        Some((None, i + 4))
    } else {
        match p_dt(s, i) {
            Some((v, j)) => Some((Some(v), j)),
            None => None,
        }
    }
}

/// Reads one record. Under the legacy schema there is no priority field and
/// every recovered record gets priority Low; under the current schema the
/// field is required.
pub open spec fn p_task(s: Seq<char>, i: int, legacy: bool) -> Option<(TaskView, int)> {
    match p_exact(s, i, lit_obj_open() + lit_key_id()) {
        None => None,
        Some(j0) => match p_uuid(s, j0) {
            None => None,
            Some((id, j1)) => match p_exact(s, j1, lit_sep() + lit_key_desc()) {
                None => None,
                Some(j2) => match p_string(s, j2) {
                    None => None,
                    Some((desc, j3)) => match p_exact(s, j3, lit_sep() + lit_key_status()) {
                        None => None,
                        Some(j4) => match p_status(s, j4) {
                            None => None,
                            Some((st, j5)) => match p_exact(s, j5, lit_sep() + lit_key_cat()) {
                                None => None,
                                Some(j6) => match p_opt_str(s, j6) {
                                    None => None,
                                    Some((cat, j7)) => match p_exact(
                                        s,
                                        j7,
                                        lit_sep() + lit_key_due(),
                                    ) {
                                        None => None,
                                        Some(j8) => match p_opt_dt(s, j8) {
                                            None => None,
                                            Some((due, j9)) => if legacy {
                                                match p_exact(s, j9, lit_obj_close()) {
                                                    None => None,
                                                    Some(j10) => Some(
                                                        (
                                                            TaskView {
                                                                id,
                                                                description: desc,
                                                                status: st,
                                                                category: cat,
                                                                due_time: due,
                                                                priority: Priority::Low,
                                                            },
                                                            j10,
                                                        ),
                                                    ),
                                                }
                                            } else {
                                                match p_exact(s, j9, lit_sep() + lit_key_prio()) {
                                                    None => None,
                                                    Some(j10) => match p_prio(s, j10) {
                                                        None => None,
                                                        Some((pr, j11)) => match p_exact(
                                                            s,
                                                            j11,
                                                            lit_obj_close(),
                                                        ) {
                                                            None => None,
                                                            Some(j12) => Some(
                                                                (
                                                                    TaskView {
                                                                        id,
                                                                        description: desc,
                                                                        status: st,
                                                                        category: cat,
                                                                        due_time: due,
                                                                        priority: pr,
                                                                    },
                                                                    j12,
                                                                ),
                                                            ),
                                                        },
                                                    },
                                                }
                                            },
                                        },
                                    },
                                },
                            },
                        },
                    },
                },
            },
        },
    }
}

/// Reads a comma-separated list of one or more records.
pub open spec fn p_list(s: Seq<char>, i: int, legacy: bool) -> Option<(Seq<TaskView>, int)>
    decreases s.len() - i,
{
    match p_task(s, i, legacy) {
        None => None,
        Some((t, j)) => if at(s, j, lit_sep()) {
            if j + 2 > i {
                match p_list(s, j + 2, legacy) {
                    None => None,
                    Some((rest, end)) => Some((seq![t] + rest, end)),
                }
            } else {
                None
            }
        } else {
            Some((seq![t], j))
        },
    }
}

/// Reads a whole document under one schema: the empty array, or an array of
/// records, with nothing after it.
pub open spec fn p_doc(s: Seq<char>, legacy: bool) -> Option<Seq<TaskView>> {
    if s == lit_arr_empty() {
        Some(Seq::empty())
    } else if at(s, 0, lit_arr_open()) {
        match p_list(s, 2, legacy) {
            None => None,
            Some((ts, j)) => if j + 2 == s.len() && at(s, j, lit_arr_close()) {
                Some(ts)
            } else {
                None
            },
        }
    } else {
        None
    }
}

/// What `load_tasks` recovers from stored text: the current schema is tried
/// first; if it rejects the text, the legacy schema is tried, under which
/// every record gets priority Low; if both reject it, the text is corrupt.
/// The flag says whether the legacy fallback was used.
pub open spec fn spec_load(s: Seq<char>) -> Option<(Seq<TaskView>, bool)> {
    match p_doc(s, false) {
        Some(ts) => Some((ts, false)),
        None => match p_doc(s, true) {
            Some(ts) => Some((ts, true)),
            None => None,
        },
    }
}

// ---------------------------------------------------------------------------
// Powers of sixteen, for reading and writing ids digit by digit
// ---------------------------------------------------------------------------

pub proof fn lemma_pow16_pos(e: nat)
    ensures
        pow16(e) >= 1,
    decreases e,
{
    if e > 0 {
        lemma_pow16_pos((e - 1) as nat);
    }
}

pub proof fn lemma_pow16_le(a: nat, b: nat)
    requires
        a <= b,
    ensures
        pow16(a) <= pow16(b),
    decreases b,
{
    if a < b {
        lemma_pow16_le(a, (b - 1) as nat);
        lemma_pow16_pos((b - 1) as nat);
    }
}

pub proof fn lemma_pow16_31()
    ensures
        pow16(31) == 0x1000_0000_0000_0000_0000_0000_0000_0000,
{
    reveal_with_fuel(pow16, 32);
    assert(pow16(31) == 0x1000_0000_0000_0000_0000_0000_0000_0000);
}

fn pow16_exec(e: usize) -> (r: u128)
    requires
        e <= 31,
    ensures
        r as int == pow16(e as nat),
{
    proof {
        lemma_pow16_31();
    }
    let mut p: u128 = 1;
    let mut j: usize = 0;
    while j < e
        invariant
            j <= e <= 31,
            p as int == pow16(j as nat),
        decreases e - j,
    {
        proof {
            lemma_pow16_le(j as nat + 1, 31);
            lemma_pow16_31();
        }
        p = p * 16;
        j += 1;
    }
    p
}

// ---------------------------------------------------------------------------
// The writer
// ---------------------------------------------------------------------------

fn digit_char(n: u8) -> (r: char)
    requires
        n < 100,
    ensures
        r == digit_ch(n as int),
{
    ((48 + n) as u8) as char
}

fn hex_char(n: u32) -> (r: char)
    requires
        n < 16,
    ensures
        r == hex_ch(n as int),
{
    if n < 10 {
        ((48 + n) as u8) as char
    } else {
        ((87 + n) as u8) as char
    }
}

fn push_d2(out: &mut Vec<char>, n: u8)
    ensures
        final(out)@ == old(out)@ + d2(n as int),
{
    out.push(digit_char(n / 10));
    out.push(digit_char(n % 10));
    assert(out@ =~= old(out)@ + d2(n as int));
}

fn push_d4(out: &mut Vec<char>, n: u16)
    ensures
        final(out)@ == old(out)@ + d4(n as int),
{
    out.push(((48 + n / 1000) as u8) as char);
    out.push(((48 + (n / 100) % 10) as u8) as char);
    out.push(((48 + (n / 10) % 10) as u8) as char);
    out.push(((48 + n % 10) as u8) as char);
    assert(out@ =~= old(out)@ + d4(n as int));
}

fn push_dt(out: &mut Vec<char>, dt: DateTime)
    ensures
        final(out)@ == old(out)@ + dt_chars(dt),
{
    push_d4(out, dt.year);
    out.push('-');
    push_d2(out, dt.month);
    out.push('-');
    push_d2(out, dt.day);
    out.push('T');
    push_d2(out, dt.hour);
    out.push(':');
    push_d2(out, dt.minute);
    out.push(':');
    out.push('0');
    out.push('0');
    assert(out@ =~= old(out)@ + dt_chars(dt));
}

fn push_uuid(out: &mut Vec<char>, id: u128)
    ensures
        final(out)@ == old(out)@ + uuid_chars(id),
{
    let mut ds: Vec<char> = Vec::new();
    let mut k: usize = 0;
    while k < 32
        invariant
            k <= 32,
            ds@.len() == k,
            forall|m: int| 0 <= m < k ==> ds@[m] == uuid_digits(id)[m],
        decreases 32 - k,
    {
        let e = 31 - k;
        let p = pow16_exec(e);
        proof {
            lemma_pow16_pos(e as nat);
        }
        let d = (id / p) % 16;
        ds.push(hex_char(d as u32));
        k += 1;
    }
    assert(ds@ =~= uuid_digits(id));
    let mut g = crate::tags::subvec(&ds, 0, 8);
    out.append(&mut g);
    out.push('-');
    let mut g = crate::tags::subvec(&ds, 8, 12);
    out.append(&mut g);
    out.push('-');
    let mut g = crate::tags::subvec(&ds, 12, 16);
    out.append(&mut g);
    out.push('-');
    let mut g = crate::tags::subvec(&ds, 16, 20);
    out.append(&mut g);
    out.push('-');
    let mut g = crate::tags::subvec(&ds, 20, 32);
    out.append(&mut g);
    assert(out@ =~= old(out)@ + uuid_chars(id));
}

fn esc1_exec(c: char) -> (r: Vec<char>)
    ensures
        r@ == esc1(c),
{
    if c == '"' {
        let v = vec!['\\', '"'];
        assert(v@ =~= esc1(c));
        v
    } else if c == '\\' {
        let v = vec!['\\', '\\'];
        assert(v@ =~= esc1(c));
        v
    } else if c == '\n' {
        let v = vec!['\\', 'n'];
        assert(v@ =~= esc1(c));
        v
    } else if c == '\r' {
        let v = vec!['\\', 'r'];
        assert(v@ =~= esc1(c));
        v
    } else if c == '\t' {
        let v = vec!['\\', 't'];
        assert(v@ =~= esc1(c));
        v
    } else if (c as u32) == 8 {
        let v = vec!['\\', 'b'];
        assert(v@ =~= esc1(c));
        v
    } else if (c as u32) == 12 {
        let v = vec!['\\', 'f'];
        assert(v@ =~= esc1(c));
        v
    } else if (c as u32) < 32 {
        let code = c as u32;
        let v = vec!['\\', 'u', '0', '0', hex_char(code / 16), hex_char(code % 16)];
        assert(v@ =~= esc1(c));
        v
    } else {
        let v = vec![c];
        assert(v@ =~= esc1(c));
        v
    }
}

fn push_escaped(out: &mut Vec<char>, s: &Vec<char>)
    ensures
        final(out)@ == old(out)@ + escape(s@),
{
    let mut i: usize = 0;
    while i < s.len()
        invariant
            i <= s@.len(),
            out@ == old(out)@ + escape(s@.subrange(0, i as int)),
        decreases s.len() - i,
    {
        let mut frag = esc1_exec(s[i]);
        out.append(&mut frag);
        i += 1;
        proof {
            let pre = s@.subrange(0, i - 1);
            let cur = s@.subrange(0, i as int);
            assert(cur.drop_last() =~= pre);
            assert(cur.last() == s@[i - 1]);
            assert(escape(cur) == escape(pre) + esc1(s@[i - 1]));
            assert(out@ =~= old(out)@ + escape(cur));
        }
    }
    assert(s@.subrange(0, s@.len() as int) =~= s@);
}

fn push_str_lit(out: &mut Vec<char>, s: &Vec<char>)
    ensures
        final(out)@ == old(out)@ + ser_str(s@),
{
    out.push('"');
    push_escaped(out, s);
    out.push('"');
    assert(out@ =~= old(out)@ + ser_str(s@));
}

fn push_status(out: &mut Vec<char>, st: TaskStatus)
    ensures
        final(out)@ == old(out)@ + quoted(status_word(st)),
{
    out.push('"');
    match st {
        TaskStatus::Todo => {
            let mut v = vec!['T', 'o', 'd', 'o'];
            out.append(&mut v);
        },
        TaskStatus::Doing => {
            let mut v = vec!['D', 'o', 'i', 'n', 'g'];
            out.append(&mut v);
        },
        TaskStatus::Done => {
            let mut v = vec!['D', 'o', 'n', 'e'];
            out.append(&mut v);
        },
    }
    out.push('"');
    assert(out@ =~= old(out)@ + quoted(status_word(st)));
}

fn push_prio(out: &mut Vec<char>, p: Priority)
    ensures
        final(out)@ == old(out)@ + quoted(prio_word(p)),
{
    out.push('"');
    match p {
        Priority::Low => {
            let mut v = vec!['L', 'o', 'w'];
            out.append(&mut v);
        },
        Priority::Medium => {
            let mut v = vec!['M', 'e', 'd', 'i', 'u', 'm'];
            out.append(&mut v);
        },
        Priority::High => {
            let mut v = vec!['H', 'i', 'g', 'h'];
            out.append(&mut v);
        },
    }
    out.push('"');
    assert(out@ =~= old(out)@ + quoted(prio_word(p)));
}

fn push_key(out: &mut Vec<char>, which: u8)
    requires
        which < 6,
    ensures
        final(out)@ == old(out)@ + (if which == 0 {
            lit_key_id()
        } else if which == 1 {
            lit_key_desc()
        } else if which == 2 {
            lit_key_status()
        } else if which == 3 {
            lit_key_cat()
        } else if which == 4 {
            lit_key_due()
        } else {
            lit_key_prio()
        }),
{
    out.push(' ');
    out.push(' ');
    out.push(' ');
    out.push(' ');
    out.push('"');
    if which == 0 {
        let mut v = vec!['i', 'd'];
        out.append(&mut v);
    } else if which == 1 {
        let mut v = vec!['d', 'e', 's', 'c', 'r', 'i', 'p', 't', 'i', 'o', 'n'];
        out.append(&mut v);
    } else if which == 2 {
        let mut v = vec!['s', 't', 'a', 't', 'u', 's'];
        out.append(&mut v);
    } else if which == 3 {
        let mut v = vec!['c', 'a', 't', 'e', 'g', 'o', 'r', 'y'];
        out.append(&mut v);
    } else if which == 4 {
        let mut v = vec!['d', 'u', 'e', '_', 't', 'i', 'm', 'e'];
        out.append(&mut v);
    } else {
        let mut v = vec!['p', 'r', 'i', 'o', 'r', 'i', 't', 'y'];
        out.append(&mut v);
    }
    out.push('"');
    out.push(':');
    out.push(' ');
    assert(out@ =~= old(out)@ + (if which == 0 {
        lit_key_id()
    } else if which == 1 {
        lit_key_desc()
    } else if which == 2 {
        lit_key_status()
    } else if which == 3 {
        lit_key_cat()
    } else if which == 4 {
        lit_key_due()
    } else {
        lit_key_prio()
    }));
}

fn push_null(out: &mut Vec<char>)
    ensures
        final(out)@ == old(out)@ + lit_null(),
{
    let mut v = vec!['n', 'u', 'l', 'l'];
    out.append(&mut v);
    assert(out@ =~= old(out)@ + lit_null());
}

fn push_sep(out: &mut Vec<char>)
    ensures
        final(out)@ == old(out)@ + lit_sep(),
{
    out.push(',');
    out.push('\n');
    assert(out@ =~= old(out)@ + lit_sep());
}

proof fn lemma_add_assoc(a: Seq<char>, b: Seq<char>, c: Seq<char>)
    ensures
        (a + b) + c == a + (b + c),
{
    assert((a + b) + c =~= a + (b + c));
}

/// Writes one record under the current schema.
#[verifier::rlimit(100)]
fn push_task(out: &mut Vec<char>, t: &Task)
    ensures
        final(out)@ == old(out)@ + ser_task(t@),
{
    out.push(' ');
    out.push(' ');
    out.push('{');
    out.push('\n');
    assert(out@ =~= old(out)@ + lit_obj_open());
    let ghost mut acc: Seq<char> = lit_obj_open();
    push_key(out, 0);
    proof {
        lemma_add_assoc(old(out)@, acc, lit_key_id());
        acc = acc + lit_key_id();
        assert(out@ == old(out)@ + acc);
    }
    let ghost b = out@;
    out.push('"');
    push_uuid(out, t.id);
    out.push('"');
    proof {
        assert(out@ =~= b + quoted(uuid_chars(t.id)));
        lemma_add_assoc(old(out)@, acc, quoted(uuid_chars(t.id)));
        acc = acc + quoted(uuid_chars(t.id));
        assert(out@ == old(out)@ + acc);
    }
    push_sep(out);
    proof {
        lemma_add_assoc(old(out)@, acc, lit_sep());
        acc = acc + lit_sep();
    }
    push_key(out, 1);
    proof {
        lemma_add_assoc(old(out)@, acc, lit_key_desc());
        acc = acc + lit_key_desc();
    }
    push_str_lit(out, &t.description);
    proof {
        lemma_add_assoc(old(out)@, acc, ser_str(t@.description));
        acc = acc + ser_str(t@.description);
        assert(out@ == old(out)@ + acc);
    }
    push_sep(out);
    proof {
        lemma_add_assoc(old(out)@, acc, lit_sep());
        acc = acc + lit_sep();
    }
    push_key(out, 2);
    proof {
        lemma_add_assoc(old(out)@, acc, lit_key_status());
        acc = acc + lit_key_status();
    }
    push_status(out, t.status);
    proof {
        lemma_add_assoc(old(out)@, acc, quoted(status_word(t@.status)));
        acc = acc + quoted(status_word(t@.status));
        assert(out@ == old(out)@ + acc);
    }
    push_sep(out);
    proof {
        lemma_add_assoc(old(out)@, acc, lit_sep());
        acc = acc + lit_sep();
    }
    push_key(out, 3);
    proof {
        lemma_add_assoc(old(out)@, acc, lit_key_cat());
        acc = acc + lit_key_cat();
    }
    match &t.category {
        None => push_null(out),
        Some(c) => push_str_lit(out, c),
    }
    proof {
        lemma_add_assoc(old(out)@, acc, ser_opt_str(t@.category));
        acc = acc + ser_opt_str(t@.category);
        assert(out@ == old(out)@ + acc);
    }
    push_sep(out);
    proof {
        lemma_add_assoc(old(out)@, acc, lit_sep());
        acc = acc + lit_sep();
    }
    push_key(out, 4);
    proof {
        lemma_add_assoc(old(out)@, acc, lit_key_due());
        acc = acc + lit_key_due();
    }
    let ghost b2 = out@;
    match &t.due_time {
        None => push_null(out),
        Some(dt) => {
            out.push('"');
            push_dt(out, *dt);
            out.push('"');
            assert(out@ =~= b2 + quoted(dt_chars(t@.due_time->Some_0)));
        },
    }
    proof {
        lemma_add_assoc(old(out)@, acc, ser_opt_dt(t@.due_time));
        acc = acc + ser_opt_dt(t@.due_time);
        assert(out@ == old(out)@ + acc);
    }
    push_sep(out);
    proof {
        lemma_add_assoc(old(out)@, acc, lit_sep());
        acc = acc + lit_sep();
    }
    push_key(out, 5);
    proof {
        lemma_add_assoc(old(out)@, acc, lit_key_prio());
        acc = acc + lit_key_prio();
    }
    push_prio(out, t.priority);
    proof {
        lemma_add_assoc(old(out)@, acc, quoted(prio_word(t@.priority)));
        acc = acc + quoted(prio_word(t@.priority));
        assert(out@ == old(out)@ + acc);
    }
    let ghost b3 = out@;
    out.push('\n');
    out.push(' ');
    out.push(' ');
    out.push('}');
    proof {
        assert(out@ =~= b3 + lit_obj_close());
        lemma_add_assoc(old(out)@, acc, lit_obj_close());
        acc = acc + lit_obj_close();
        assert(out@ == old(out)@ + acc);
        assert(acc == ser_task(t@));
    }
}

/// A control character survives the trip through its code and back.
proof fn lemma_char_code_roundtrip(c: char)
    requires
        (c as u32) < 32,
    ensures
        ((c as u8) as char) == c,
{
}

// ---------------------------------------------------------------------------
// The writer and the reader agree: reading back a written document gives the
// written collection. The lemmas walk the grammar, one production at a time.
// ---------------------------------------------------------------------------

/// A fragment made of two parts stands at `i` exactly when the parts stand at
/// `i` and after it.
proof fn lemma_at_split(s: Seq<char>, i: int, a: Seq<char>, b: Seq<char>)
    requires
        at(s, i, a + b),
    ensures
        at(s, i, a),
        at(s, i + a.len(), b),
{
    let ab = a + b;
    assert forall|k: int| 0 <= k < a.len() implies s.subrange(i, i + a.len())[k] == a[k] by {
        assert(s.subrange(i, i + ab.len())[k] == s[i + k]);
        assert(s.subrange(i, i + a.len())[k] == s[i + k]);
    }
    assert(s.subrange(i, i + a.len()) =~= a);
    assert forall|k: int|
        0 <= k < b.len() implies s.subrange(i + a.len(), i + a.len() + b.len())[k] == b[k] by {
        assert(s.subrange(i, i + ab.len())[a.len() + k] == s[i + a.len() + k]);
        assert(s.subrange(i + a.len(), i + a.len() + b.len())[k] == s[i + a.len() + k]);
    }
    assert(s.subrange(i + a.len(), i + a.len() + b.len()) =~= b);
}

proof fn lemma_at_join(s: Seq<char>, i: int, a: Seq<char>, b: Seq<char>)
    requires
        at(s, i, a),
        at(s, i + a.len(), b),
    ensures
        at(s, i, a + b),
{
    assert forall|k: int| 0 <= k < a.len() implies s[i + k] == a[k] by {
        assert(s.subrange(i, i + a.len())[k] == s[i + k]);
    }
    assert forall|k: int| 0 <= k < b.len() implies s[i + a.len() + k] == b[k] by {
        assert(s.subrange(i + a.len(), i + a.len() + b.len())[k] == s[i + a.len() + k]);
    }
    assert(s.subrange(i, i + (a + b).len()) =~= a + b);
}

/// One character of a fragment standing at `i` is the text's character there.
proof fn lemma_at_index(s: Seq<char>, i: int, a: Seq<char>, k: int)
    requires
        at(s, i, a),
        0 <= k < a.len(),
    ensures
        s[i + k] == a[k],
{
    assert(s.subrange(i, i + a.len())[k] == s[i + k]);
}

proof fn lemma_digit_ch(n: int)
    requires
        0 <= n <= 9,
    ensures
        crate::tags::is_digit(digit_ch(n)),
        crate::tags::digit_val(digit_ch(n)) == n,
{
}

proof fn lemma_hex_ch(n: int)
    requires
        0 <= n < 16,
    ensures
        is_hexd(hex_ch(n)),
        hexv(hex_ch(n)) == n,
{
}

/// Reading a written string body: the escape of any text, followed by the
/// closing quote, reads back as exactly that text.
#[verifier::rlimit(100)]
#[verifier::spinoff_prover]
proof fn lemma_read_escaped(s: Seq<char>, i: int, c: Seq<char>)
    requires
        at(s, i, escape(c) + seq!['"']),
    ensures
        p_strbody(s, i) == Some((c, i + escape(c).len() + 1)),
    decreases c.len(),
{
    if c.len() == 0 {
        assert(escape(c) + seq!['"'] =~= seq!['"']);
        lemma_at_index(s, i, seq!['"'], 0);
        assert(s[i] == '"');
        assert(p_strbody(s, i) == Some((Seq::<char>::empty(), i + 1)));
        assert(c =~= Seq::<char>::empty());
    } else {
        lemma_escape_head(c);
        let c0 = c[0];
        let rest = c.skip(1);
        let e1 = esc1(c0);
        assert((e1 + escape(rest)) + seq!['"'] =~= e1 + (escape(rest) + seq!['"']));
        lemma_at_split(s, i, e1, escape(rest) + seq!['"']);
        assert forall|k: int| 0 <= k < e1.len() implies s[i + k] == e1[k] by {
            lemma_at_index(s, i, e1, k);
        }
        lemma_read_escaped(s, i + e1.len(), rest);
        assert(seq![c0] + rest =~= c);
        if c0 == '"' || c0 == '\\' || c0 == '\n' || c0 == '\r' || c0 == '\t' || (c0 as u32) == 8 || (
        c0 as u32) == 12 {
            assert(e1.len() == 2);
            assert(e1[0] == '\\');
            assert(s[i + 0] == e1[0] && s[i + 1] == e1[1]);
            assert(s[i] == '\\');
            if (c0 as u32) == 8 || (c0 as u32) == 12 {
                lemma_char_code_roundtrip(c0);
            }
            assert(unesc(s[i + 1]) == Some(c0));
        } else if (c0 as u32) < 32 {
            let code = (c0 as u32) as int;
            lemma_hex_ch(code / 16);
            lemma_hex_ch(code % 16);
            assert(s[i + 0] == e1[0] && s[i + 1] == e1[1] && s[i + 2] == e1[2] && s[i + 3] == e1[3]
                && s[i + 4] == e1[4] && s[i + 5] == e1[5]);
            assert(s[i] == '\\');
            assert(s[i + 1] == 'u');
            assert(s[i + 2] == '0');
            assert(s[i + 3] == '0');
            assert(hexv(s[i + 4]) * 16 + hexv(s[i + 5]) == code);
            lemma_char_code_roundtrip(c0);
            assert((code as u8) == (c0 as u8));
            assert(((code) as u8) as char == c0);
        } else {
            assert(s[i + 0] == e1[0]);
            assert(s[i] == c0);
        }
    }
}

/// Reading a written string literal.
proof fn lemma_read_string(s: Seq<char>, i: int, c: Seq<char>)
    requires
        at(s, i, ser_str(c)),
    ensures
        p_string(s, i) == Some((c, i + ser_str(c).len())),
{
    assert(ser_str(c) =~= seq!['"'] + (escape(c) + seq!['"']));
    lemma_at_split(s, i, seq!['"'], escape(c) + seq!['"']);
    lemma_at_index(s, i, seq!['"'], 0);
    assert(s[i] == '"');
    lemma_read_escaped(s, i + 1, c);
}

/// The first `k` written digits of an id carry its value divided by the
/// place value of the next digit.
proof fn lemma_hexval_uuid(id: u128, k: int)
    requires
        0 <= k <= 32,
    ensures
        hexval(uuid_digits(id).subrange(0, k)) == (id as int) / pow16((32 - k) as nat),
    decreases k,
{
    let d = uuid_digits(id);
    if k == 0 {
        assert(d.subrange(0, 0) =~= Seq::<char>::empty());
        lemma_pow16_32();
        vstd::arithmetic::div_mod::lemma_basic_div_specific_divisor(pow16(32));
        assert((id as int) / pow16(32) == 0);
    } else {
        lemma_hexval_uuid(id, k - 1);
        let pre = d.subrange(0, k - 1);
        let cur = d.subrange(0, k);
        assert(cur.drop_last() =~= pre);
        assert(cur.last() == d[k - 1]);
        let n = (id as int / pow16((32 - k) as nat)) % 16;
        lemma_pow16_pos((32 - k) as nat);
        assert(0 <= n < 16);
        lemma_hex_ch(n);
        assert(d[k - 1] == hex_ch(n));
        assert(hexval(cur) == hexval(pre) * 16 + n);
        lemma_pow16_pos((31 - (k - 1)) as nat);
        vstd::arithmetic::div_mod::lemma_div_denominator(id as int, pow16((32 - k) as nat), 16);
        assert(pow16((33 - k) as nat) == 16 * pow16((32 - k) as nat));
        assert((id as int) / pow16((33 - k) as nat) == ((id as int) / pow16((32 - k) as nat)) / 16);
        let q = (id as int) / pow16((32 - k) as nat);
        assert(q == (q / 16) * 16 + q % 16) by {
            vstd::arithmetic::div_mod::lemma_fundamental_div_mod(q, 16);
        }
    }
}

/// A written id has the expected shape and reads back as the same value.
#[verifier::rlimit(100)]
#[verifier::spinoff_prover]
proof fn lemma_read_uuid(s: Seq<char>, i: int, id: u128)
    requires
        at(s, i, quoted(uuid_chars(id))),
    ensures
        p_uuid(s, i) == Some((id, i + 38)),
{
    let d = uuid_digits(id);
    let u = uuid_chars(id);
    assert(u.len() == 36);
    assert(quoted(u) =~= seq!['"'] + (u + seq!['"']));
    lemma_at_split(s, i, seq!['"'], u + seq!['"']);
    lemma_at_split(s, i + 1, u, seq!['"']);
    lemma_at_index(s, i, seq!['"'], 0);
    lemma_at_index(s, i + 37, seq!['"'], 0);
    assert(s[i] == '"');
    assert(s[i + 37] == '"');
    assert forall|k: int| 0 <= k < 36 implies s[i + 1 + k] == u[k] by {
        lemma_at_index(s, i + 1, u, k);
    }
    assert(s.subrange(i + 1, i + 37) =~= u);
    assert forall|k: int| 0 <= k < 32 implies is_hexd(#[trigger] d[k]) && hexv(d[k]) == (
    id as int / pow16((31 - k) as nat)) % 16 by {
        lemma_pow16_pos((31 - k) as nat);
        lemma_hex_ch((id as int / pow16((31 - k) as nat)) % 16);
    }
    assert(u[8] == '-' && u[13] == '-' && u[18] == '-' && u[23] == '-');
    assert forall|k: int|
        0 <= k < 36 && k != 8 && k != 13 && k != 18 && k != 23 implies is_hexd(
        #[trigger] u[k]) by {
        if k < 8 {
            assert(u[k] == d[k]);
        } else if k < 13 {
            assert(u[k] == d[k - 1]);
        } else if k < 18 {
            assert(u[k] == d[k - 2]);
        } else if k < 23 {
            assert(u[k] == d[k - 3]);
        } else {
            assert(u[k] == d[k - 4]);
        }
    }
    assert(uuid_shape(u));
    assert(hex_digits_of(u) =~= d);
    lemma_hexval_uuid(id, 32);
    assert(d.subrange(0, 32) =~= d);
    assert(pow16(0) == 1);
    assert(hexval(d) == id as int);
}

/// A valid written due time reads back as the same value.
#[verifier::rlimit(100)]
#[verifier::spinoff_prover]
proof fn lemma_read_dt(s: Seq<char>, i: int, dt: DateTime)
    requires
        at(s, i, quoted(dt_chars(dt))),
        dt_valid(dt),
    ensures
        p_dt(s, i) == Some((dt, i + 21)),
{
    let u = quoted(dt_chars(dt));
    assert(u.len() == 21);
    assert forall|k: int| 0 <= k < 21 implies s[i + k] == u[k] by {
        lemma_at_index(s, i, u, k);
    }
    assert(s.subrange(i, i + 21) =~= u);
    let y = dt.year as int;
    let mo = dt.month as int;
    let da = dt.day as int;
    let h = dt.hour as int;
    let mi = dt.minute as int;
    assert(u[0] == '"' && u[20] == '"');
    assert(u[1] == digit_ch(y / 1000) && u[2] == digit_ch((y / 100) % 10) && u[3] == digit_ch(
        (y / 10) % 10,
    ) && u[4] == digit_ch(y % 10));
    assert(u[5] == '-' && u[8] == '-' && u[11] == 'T' && u[14] == ':' && u[17] == ':');
    assert(u[6] == digit_ch(mo / 10) && u[7] == digit_ch(mo % 10));
    assert(u[9] == digit_ch(da / 10) && u[10] == digit_ch(da % 10));
    assert(u[12] == digit_ch(h / 10) && u[13] == digit_ch(h % 10));
    assert(u[15] == digit_ch(mi / 10) && u[16] == digit_ch(mi % 10));
    assert(u[18] == '0' && u[19] == '0');
    lemma_digit_ch(y / 1000);
    lemma_digit_ch((y / 100) % 10);
    lemma_digit_ch((y / 10) % 10);
    lemma_digit_ch(y % 10);
    lemma_digit_ch(mo / 10);
    lemma_digit_ch(mo % 10);
    lemma_digit_ch(da / 10);
    lemma_digit_ch(da % 10);
    lemma_digit_ch(h / 10);
    lemma_digit_ch(h % 10);
    lemma_digit_ch(mi / 10);
    lemma_digit_ch(mi % 10);
    assert((y / 1000) * 1000 + ((y / 100) % 10) * 100 + ((y / 10) % 10) * 10 + y % 10 == y);
    assert((mo / 10) * 10 + mo % 10 == mo);
    assert((da / 10) * 10 + da % 10 == da);
    assert((h / 10) * 10 + h % 10 == h);
    assert((mi / 10) * 10 + mi % 10 == mi);
}

proof fn lemma_read_status(s: Seq<char>, i: int, st: TaskStatus)
    requires
        at(s, i, quoted(status_word(st))),
    ensures
        p_status(s, i) == Some((st, i + quoted(status_word(st)).len())),
{
    let u = quoted(status_word(st));
    assert forall|k: int| 0 <= k < u.len() implies s[i + k] == u[k] by {
        lemma_at_index(s, i, u, k);
    }
    assert(s.subrange(i, i + u.len()) =~= u);
    match st {
        TaskStatus::Todo => {},
        TaskStatus::Doing => {
            assert(!at(s, i, quoted(status_word(TaskStatus::Todo)))) by {
                if at(s, i, quoted(status_word(TaskStatus::Todo))) {
                    lemma_at_index(s, i, quoted(status_word(TaskStatus::Todo)), 1);
                }
            }
        },
        TaskStatus::Done => {
            assert(!at(s, i, quoted(status_word(TaskStatus::Todo)))) by {
                if at(s, i, quoted(status_word(TaskStatus::Todo))) {
                    lemma_at_index(s, i, quoted(status_word(TaskStatus::Todo)), 1);
                }
            }
            assert(!at(s, i, quoted(status_word(TaskStatus::Doing)))) by {
                if at(s, i, quoted(status_word(TaskStatus::Doing))) {
                    lemma_at_index(s, i, quoted(status_word(TaskStatus::Doing)), 4);
                }
            }
        },
    }
}

proof fn lemma_read_prio(s: Seq<char>, i: int, pr: Priority)
    requires
        at(s, i, quoted(prio_word(pr))),
    ensures
        p_prio(s, i) == Some((pr, i + quoted(prio_word(pr)).len())),
{
    let u = quoted(prio_word(pr));
    assert forall|k: int| 0 <= k < u.len() implies s[i + k] == u[k] by {
        lemma_at_index(s, i, u, k);
    }
    assert(s.subrange(i, i + u.len()) =~= u);
    match pr {
        Priority::Low => {},
        Priority::Medium => {
            assert(!at(s, i, quoted(prio_word(Priority::Low)))) by {
                if at(s, i, quoted(prio_word(Priority::Low))) {
                    lemma_at_index(s, i, quoted(prio_word(Priority::Low)), 1);
                }
            }
        },
        Priority::High => {
            assert(!at(s, i, quoted(prio_word(Priority::Low)))) by {
                if at(s, i, quoted(prio_word(Priority::Low))) {
                    lemma_at_index(s, i, quoted(prio_word(Priority::Low)), 1);
                }
            }
            assert(!at(s, i, quoted(prio_word(Priority::Medium)))) by {
                if at(s, i, quoted(prio_word(Priority::Medium))) {
                    lemma_at_index(s, i, quoted(prio_word(Priority::Medium)), 1);
                }
            }
        },
    }
}

proof fn lemma_read_opt_str(s: Seq<char>, i: int, c: Option<Seq<char>>)
    requires
        at(s, i, ser_opt_str(c)),
    ensures
        p_opt_str(s, i) == Some((c, i + ser_opt_str(c).len())),
{
    match c {
        None => {},
        Some(v) => {
            assert(!at(s, i, lit_null())) by {
                if at(s, i, lit_null()) {
                    lemma_at_index(s, i, lit_null(), 0);
                    lemma_at_index(s, i, ser_str(v), 0);
                    assert(ser_str(v) =~= seq!['"'] + (escape(v) + seq!['"']));
                    assert(ser_str(v)[0] == '"');
                }
            }
            lemma_read_string(s, i, v);
        },
    }
}

proof fn lemma_read_opt_dt(s: Seq<char>, i: int, d: Option<DateTime>)
    requires
        at(s, i, ser_opt_dt(d)),
        match d {
            Some(dt) => dt_valid(dt),
            None => true,
        },
    ensures
        p_opt_dt(s, i) == Some((d, i + ser_opt_dt(d).len())),
{
    match d {
        None => {},
        Some(dt) => {
            assert(!at(s, i, lit_null())) by {
                if at(s, i, lit_null()) {
                    lemma_at_index(s, i, lit_null(), 0);
                    lemma_at_index(s, i, quoted(dt_chars(dt)), 0);
                }
            }
            lemma_read_dt(s, i, dt);
        },
    }
}

/// A record is well formed when its due time, if present, is a valid
/// calendar date and time; only such records serialize to digits that read
/// back as themselves.
pub open spec fn task_wf(t: TaskView) -> bool {
    match t.due_time {
        Some(dt) => dt_valid(dt),
        None => true,
    }
}

pub open spec fn all_wf(ts: Seq<TaskView>) -> bool {
    forall|k: int| 0 <= k < ts.len() ==> task_wf(#[trigger] ts[k])
}

/// What a record becomes under a schema: unchanged under the current one;
/// priority Low under the legacy one, which stores no priority.
pub open spec fn norm_task(t: TaskView, legacy: bool) -> TaskView {
    if legacy {
        TaskView { priority: Priority::Low, ..t }
    } else {
        t
    }
}

pub open spec fn norm_list(ts: Seq<TaskView>, legacy: bool) -> Seq<TaskView> {
    ts.map_values(|t: TaskView| norm_task(t, legacy))
}

/// A record list also grows one record at a time from the front.
#[verifier::rlimit(100)]
#[verifier::spinoff_prover]
proof fn lemma_ser_list_head(ts: Seq<TaskView>, legacy: bool)
    requires
        ts.len() > 0,
    ensures
        ser_list(ts, legacy) == (if legacy {
            ser_task_legacy(ts[0])
        } else {
            ser_task(ts[0])
        }) + (if ts.len() == 1 {
            Seq::<char>::empty()
        } else {
            lit_sep() + ser_list(ts.skip(1), legacy)
        }),
    decreases ts.len(),
{
    let st0 = if legacy {
        ser_task_legacy(ts[0])
    } else {
        ser_task(ts[0])
    };
    let tl = if legacy {
        ser_task_legacy(ts.last())
    } else {
        ser_task(ts.last())
    };
    let dl = ts.drop_last();
    if ts.len() == 1 {
        assert(dl.len() == 0);
        assert(ser_list(dl, legacy) == Seq::<char>::empty());
        assert(ts.last() == ts[0]);
        assert(Seq::<char>::empty() + Seq::<char>::empty() =~= Seq::<char>::empty());
        assert(Seq::<char>::empty() + st0 =~= st0 + Seq::<char>::empty());
    } else {
        lemma_ser_list_head(dl, legacy);
        assert(ts.skip(1).drop_last() =~= dl.skip(1));
        assert(ts.skip(1).last() == ts.last());
        assert(dl[0] == ts[0]);
        let l1 = ser_list(dl.skip(1), legacy);
        assert(ser_list(ts.skip(1), legacy) == l1 + (if ts.skip(1).len() == 1 {
            Seq::<char>::empty()
        } else {
            lit_sep()
        }) + tl);
        if ts.len() == 2 {
            assert(dl.skip(1).len() == 0);
            assert(l1 == Seq::<char>::empty());
            assert(ser_list(dl, legacy) == st0 + Seq::<char>::empty());
            assert(st0 + Seq::<char>::empty() =~= st0);
            assert(l1 + Seq::<char>::empty() =~= Seq::<char>::empty());
            assert(Seq::<char>::empty() + tl =~= tl);
            assert(ser_list(ts.skip(1), legacy) == tl);
            assert(ser_list(ts, legacy) == (st0 + lit_sep()) + tl);
            lemma_add_assoc(st0, lit_sep(), tl);
        } else {
            assert(ser_list(dl, legacy) == st0 + (lit_sep() + l1));
            assert(ser_list(ts.skip(1), legacy) == (l1 + lit_sep()) + tl);
            assert(ser_list(ts, legacy) == ((st0 + (lit_sep() + l1)) + lit_sep()) + tl);
            lemma_add_assoc(st0, lit_sep() + l1, lit_sep());
            lemma_add_assoc(st0, (lit_sep() + l1) + lit_sep(), tl);
            lemma_add_assoc(lit_sep(), l1, lit_sep());
            lemma_add_assoc(lit_sep(), l1 + lit_sep(), tl);
            assert(ser_list(ts, legacy) == st0 + (lit_sep() + ((l1 + lit_sep()) + tl)));
        }
    }
}

/// A written record reads back: as itself under the current schema, and
/// with priority Low under the legacy one. A legacy record is also rejected
/// by the current-schema reader, which expects a priority field.
#[verifier::rlimit(100)]
#[verifier::spinoff_prover]
proof fn lemma_read_task(s: Seq<char>, i: int, t: TaskView, legacy: bool)
    requires
        task_wf(t),
        if legacy {
            at(s, i, ser_task_legacy(t))
        } else {
            at(s, i, ser_task(t))
        },
    ensures
        p_task(s, i, legacy) == Some(
            (
                norm_task(t, legacy),
                i + if legacy {
                    ser_task_legacy(t).len()
                } else {
                    ser_task(t).len()
                },
            ),
        ),
        legacy ==> p_task(s, i, false) is None,
{
    let q1 = lit_obj_open();
    let q2 = q1 + lit_key_id();
    let q3 = q2 + quoted(uuid_chars(t.id));
    let q4 = q3 + lit_sep();
    let q5 = q4 + lit_key_desc();
    let q6 = q5 + ser_str(t.description);
    let q7 = q6 + lit_sep();
    let q8 = q7 + lit_key_status();
    let q9 = q8 + quoted(status_word(t.status));
    let q10 = q9 + lit_sep();
    let q11 = q10 + lit_key_cat();
    let q12 = q11 + ser_opt_str(t.category);
    let q13 = q12 + lit_sep();
    let q14 = q13 + lit_key_due();
    let q15 = q14 + ser_opt_dt(t.due_time);
    if legacy {
        assert(ser_task_legacy(t) == q15 + lit_obj_close());
        lemma_at_split(s, i, q15, lit_obj_close());
    } else {
        let q16 = q15 + lit_sep();
        let q17 = q16 + lit_key_prio();
        let q18 = q17 + quoted(prio_word(t.priority));
        assert(ser_task(t) == q18 + lit_obj_close());
        lemma_at_split(s, i, q18, lit_obj_close());
        lemma_at_split(s, i, q17, quoted(prio_word(t.priority)));
        lemma_at_split(s, i, q16, lit_key_prio());
        lemma_at_split(s, i, q15, lit_sep());
    }
    lemma_at_split(s, i, q14, ser_opt_dt(t.due_time));
    lemma_at_split(s, i, q13, lit_key_due());
    lemma_at_split(s, i, q12, lit_sep());
    lemma_at_split(s, i, q11, ser_opt_str(t.category));
    lemma_at_split(s, i, q10, lit_key_cat());
    lemma_at_split(s, i, q9, lit_sep());
    lemma_at_split(s, i, q8, quoted(status_word(t.status)));
    lemma_at_split(s, i, q7, lit_key_status());
    lemma_at_split(s, i, q6, lit_sep());
    lemma_at_split(s, i, q5, ser_str(t.description));
    lemma_at_split(s, i, q4, lit_key_desc());
    lemma_at_split(s, i, q3, lit_sep());
    lemma_at_split(s, i, q2, quoted(uuid_chars(t.id)));
    lemma_at_split(s, i, q1, lit_key_id());
    // the reader's fixed fragments pair a separator with the next key
    lemma_at_join(s, i, q1, lit_key_id());
    lemma_at_join(s, i + q3.len(), lit_sep(), lit_key_desc());
    lemma_at_join(s, i + q6.len(), lit_sep(), lit_key_status());
    lemma_at_join(s, i + q9.len(), lit_sep(), lit_key_cat());
    lemma_at_join(s, i + q12.len(), lit_sep(), lit_key_due());
    lemma_read_uuid(s, i + q2.len(), t.id);
    lemma_read_string(s, i + q5.len(), t.description);
    lemma_read_status(s, i + q8.len(), t.status);
    lemma_read_opt_str(s, i + q11.len(), t.category);
    lemma_read_opt_dt(s, i + q14.len(), t.due_time);
    assert(quoted(uuid_chars(t.id)).len() == 38);
    if legacy {
        // the current-schema reader then wants `,` where the record closes
        assert(!at(s, i + q15.len(), lit_sep() + lit_key_prio())) by {
            if at(s, i + q15.len(), lit_sep() + lit_key_prio()) {
                lemma_at_index(s, i + q15.len(), lit_sep() + lit_key_prio(), 0);
                lemma_at_index(s, i + q15.len(), lit_obj_close(), 0);
                assert((lit_sep() + lit_key_prio())[0] == ',');
                assert(lit_obj_close()[0] == '\n');
            }
        }
        assert(p_task(s, i, false) is None);
        assert(p_task(s, i, legacy) == Some((norm_task(t, legacy), i + ser_task_legacy(t).len())));
    } else {
        let q15 = q14 + ser_opt_dt(t.due_time);
        lemma_at_join(s, i + q15.len(), lit_sep(), lit_key_prio());
        lemma_read_prio(s, i + (q15 + lit_sep() + lit_key_prio()).len(), t.priority);
        assert(p_task(s, i, legacy) == Some((norm_task(t, legacy), i + ser_task(t).len())));
    }
}

/// A written record list, followed by the array's closing text, reads back
/// record for record; under the current schema it is also rejected whenever
/// it was written under the legacy one.
#[verifier::rlimit(100)]
#[verifier::spinoff_prover]
proof fn lemma_read_list(s: Seq<char>, i: int, ts: Seq<TaskView>, legacy: bool)
    requires
        ts.len() > 0,
        all_wf(ts),
        at(s, i, ser_list(ts, legacy)),
        at(s, i + ser_list(ts, legacy).len(), lit_arr_close()),
    ensures
        p_list(s, i, legacy) == Some((norm_list(ts, legacy), i + ser_list(ts, legacy).len())),
        legacy ==> p_list(s, i, false) is None,
    decreases ts.len(),
{
    lemma_ser_list_head(ts, legacy);
    let st0 = if legacy {
        ser_task_legacy(ts[0])
    } else {
        ser_task(ts[0])
    };
    assert(task_wf(ts[0]));
    if ts.len() == 1 {
        assert(ser_list(ts, legacy) =~= st0);
        lemma_read_task(s, i, ts[0], legacy);
        let j = i + st0.len();
        assert(!at(s, j, lit_sep())) by {
            if at(s, j, lit_sep()) {
                lemma_at_index(s, j, lit_sep(), 0);
                lemma_at_index(s, j, lit_arr_close(), 0);
            }
        }
        assert(norm_list(ts, legacy) =~= seq![norm_task(ts[0], legacy)]);
    } else {
        let rest = ts.skip(1);
        assert(ser_list(ts, legacy) == st0 + (lit_sep() + ser_list(rest, legacy)));
        lemma_at_split(s, i, st0, lit_sep() + ser_list(rest, legacy));
        lemma_at_split(s, i + st0.len(), lit_sep(), ser_list(rest, legacy));
        lemma_read_task(s, i, ts[0], legacy);
        let j = i + st0.len();
        assert(all_wf(rest)) by {
            assert(forall|k: int| 0 <= k < rest.len() ==> rest[k] == ts[k + 1]);
        }
        lemma_read_list(s, j + 2, rest, legacy);
        assert(st0.len() > 0) by {
            assert(st0.len() >= lit_obj_open().len());
        }
        assert(norm_list(ts, legacy) =~= seq![norm_task(ts[0], legacy)] + norm_list(rest, legacy));
        if legacy {
            assert(p_task(s, i, false) is None);
            assert(p_list(s, i, false) is None);
        }
    }
}

/// A whole written document reads back under the schema it was written in,
/// and a non-empty legacy document is rejected under the current schema.
#[verifier::rlimit(100)]
#[verifier::spinoff_prover]
proof fn lemma_read_doc(s: Seq<char>, ts: Seq<TaskView>, legacy: bool)
    requires
        all_wf(ts),
        s == ser_doc(ts, legacy),
    ensures
        p_doc(s, legacy) == Some(norm_list(ts, legacy)),
        legacy && ts.len() > 0 ==> p_doc(s, false) is None,
{
    if ts.len() == 0 {
        assert(s == lit_arr_empty());
        assert(norm_list(ts, legacy) =~= Seq::<TaskView>::empty());
    } else {
        let body = ser_list(ts, legacy);
        lemma_add_assoc(lit_arr_open(), body, lit_arr_close());
        assert(s == lit_arr_open() + (body + lit_arr_close()));
        assert(at(s, 0, lit_arr_open() + (body + lit_arr_close()))) by {
            assert(s.subrange(0, s.len() as int) =~= s);
        }
        lemma_at_split(s, 0, lit_arr_open(), body + lit_arr_close());
        lemma_at_split(s, 2, body, lit_arr_close());
        assert(s.len() == 4 + body.len());
        assert(s != lit_arr_empty()) by {
            assert(lit_arr_empty().len() == 2);
        }
        assert(at(s, 0, lit_arr_open())) by {
            assert(s.subrange(0, 2) =~= lit_arr_open());
        }
        lemma_read_list(s, 2, ts, legacy);
        let j = 2 + body.len();
        assert(j + 2 == s.len());
    }
}

/// Saving and then loading restores the collection exactly, field for field,
/// for every well-formed collection, the empty one included; the legacy
/// fallback is never taken on text the current writer produced.
pub proof fn lemma_save_load_roundtrip(ts: Seq<TaskView>)
    requires
        all_wf(ts),
    ensures
        spec_load(spec_save(ts)) == Some((ts, false)),
{
    lemma_read_doc(spec_save(ts), ts, false);
    assert(norm_list(ts, false) =~= ts);
}

/// Text written under the legacy schema loads through the fallback, and
/// every recovered record has priority Low; the other fields come back
/// exactly as written.
pub proof fn lemma_legacy_load(ts: Seq<TaskView>)
    requires
        all_wf(ts),
        ts.len() > 0,
    ensures
        spec_load(ser_doc(ts, true)) == Some((norm_list(ts, true), true)),
        forall|k: int|
            0 <= k < ts.len() ==> #[trigger] norm_list(ts, true)[k] == (TaskView {
                priority: Priority::Low,
                ..ts[k]
            }),
{
    lemma_read_doc(ser_doc(ts, true), ts, true);
}

// ---------------------------------------------------------------------------
// The reader
// ---------------------------------------------------------------------------

fn at_exec(s: &Vec<char>, i: usize, frag: &Vec<char>) -> (r: bool)
    ensures
        r == at(s@, i as int, frag@),
{
    if i > s.len() || frag.len() > s.len() - i {
        return false;
    }
    let mut k: usize = 0;
    while k < frag.len()
        invariant
            i + frag@.len() <= s@.len(),
            s@.len() <= usize::MAX,
            k <= frag@.len(),
            forall|m: int| 0 <= m < k ==> s@[i + m] == frag@[m],
        decreases frag.len() - k,
    {
        if s[i + k] != frag[k] {
            proof {
                assert(s@.subrange(i as int, i + frag@.len())[k as int] != frag@[k as int]);
            }
            return false;
        }
        k += 1;
    }
    assert(s@.subrange(i as int, i + frag@.len()) =~= frag@);
    true
}

fn is_hexd_c(c: char) -> (r: bool)
    ensures
        r == is_hexd(c),
{
    ('0' <= c && c <= '9') || ('a' <= c && c <= 'f')
}

fn hexv_exec(c: char) -> (r: u32)
    requires
        is_hexd(c),
    ensures
        r == hexv(c),
        r < 16,
{
    if '0' <= c && c <= '9' {
        (c as u8 - 48) as u32
    } else {
        (c as u8 - 87) as u32
    }
}

/// Reads a string-literal body, after the opening quote.
fn strbody_exec(s: &Vec<char>, i0: usize) -> (r: Option<(Vec<char>, usize)>)
    requires
        i0 <= s@.len(),
    ensures
        match r {
            None => p_strbody(s@, i0 as int) is None,
            Some((v, j)) => p_strbody(s@, i0 as int) == Some((v@, j as int)) && j <= s@.len(),
        },
{
    let slen = s.len();
    assert(s@.len() == slen);
    let mut acc: Vec<char> = Vec::new();
    let mut i: usize = i0;
    proof {
        lemma_strbody_end(s@, i0 as int);
        match p_strbody(s@, i0 as int) {
            Some((rest, end)) => {
                assert(acc@ + rest =~= rest);
            },
            None => {},
        }
    }
    loop
        invariant
            i0 <= i <= s@.len(),
            s@.len() <= usize::MAX,
            match p_strbody(s@, i as int) {
                None => p_strbody(s@, i0 as int) is None,
                Some((rest, end)) => p_strbody(s@, i0 as int) == Some((acc@ + rest, end)) && end
                    <= s@.len(),
            },
        decreases s@.len() - i,
    {
        if i >= s.len() {
            return None;
        }
        let c = s[i];
        if c == '"' {
            assert(acc@ + Seq::<char>::empty() =~= acc@);
            return Some((acc, i + 1));
        }
        let ghost acc0 = acc@;
        let mut consumed: usize = 0;
        if c == '\\' {
            if i + 1 >= s.len() {
                return None;
            }
            let e = s[i + 1];
            if e == 'u' {
                if s.len() - i < 6 || s[i + 2] != '0' || s[i + 3] != '0' || !is_hexd_c(s[i + 4])
                    || !is_hexd_c(s[i + 5]) {
                    return None;
                }
                let code = hexv_exec(s[i + 4]) * 16 + hexv_exec(s[i + 5]);
                if code >= 32 {
                    return None;
                }
                acc.push((code as u8) as char);
                consumed = 6;
            } else {
                let dec: char = if e == '"' {
                    '"'
                } else if e == '\\' {
                    '\\'
                } else if e == '/' {
                    '/'
                } else if e == 'n' {
                    '\n'
                } else if e == 'r' {
                    '\r'
                } else if e == 't' {
                    '\t'
                } else if e == 'b' {
                    8u8 as char
                } else if e == 'f' {
                    12u8 as char
                } else {
                    if true {
                        assert(unesc(e) is None);
                        return None;
                    }
                    ' '
                };
                assert(unesc(e) == Some(dec));
                acc.push(dec);
                consumed = 2;
            }
        } else {
            acc.push(c);
            consumed = 1;
        }
        proof {
            let ci = acc@.last();
            assert(acc@ =~= acc0 + seq![ci]);
            match p_strbody(s@, i + consumed) {
                Some((rest, end)) => {
                    assert(p_strbody(s@, i as int) == Some((seq![ci] + rest, end)));
                    assert(acc0 + (seq![ci] + rest) =~= (acc0 + seq![ci]) + rest);
                },
                None => {
                    assert(p_strbody(s@, i as int) is None);
                },
            }
        }
        i = i + consumed;
    }
}

fn string_exec(s: &Vec<char>, i: usize) -> (r: Option<(Vec<char>, usize)>)
    ensures
        match r {
            None => p_string(s@, i as int) is None,
            Some((v, j)) => p_string(s@, i as int) == Some((v@, j as int)) && j <= s@.len(),
        },
{
    if i >= s.len() || s[i] != '"' {
        return None;
    }
    strbody_exec(s, i + 1)
}

proof fn lemma_pow16_32()
    ensures
        pow16(32) == 0x1_0000_0000_0000_0000_0000_0000_0000_0000,
{
    lemma_pow16_31();
    assert(pow16(32) == 16 * pow16(31));
}

proof fn lemma_hexval_bound(d: Seq<char>)
    requires
        forall|k: int| 0 <= k < d.len() ==> is_hexd(#[trigger] d[k]),
    ensures
        0 <= hexval(d) < pow16(d.len() as nat),
    decreases d.len(),
{
    if d.len() == 0 {
    } else {
        assert(forall|k: int|
            0 <= k < d.len() - 1 ==> is_hexd(#[trigger] d.drop_last()[k]));
        lemma_hexval_bound(d.drop_last());
        assert(is_hexd(d.last()));
        assert(0 <= hexv(d.last()) < 16);
        assert(d.drop_last().len() == d.len() - 1);
        assert(pow16(d.len() as nat) == 16 * pow16((d.len() - 1) as nat));
    }
}

/// Reads a quoted id.
fn uuid_exec(s: &Vec<char>, i: usize) -> (r: Option<(u128, usize)>)
    ensures
        match r {
            None => p_uuid(s@, i as int) is None,
            Some((v, j)) => p_uuid(s@, i as int) == Some((v, j as int)) && j <= s@.len(),
        },
{
    let slen = s.len();
    assert(s@.len() == slen);
    if i > s.len() || s.len() - i < 38 {
        return None;
    }
    if s[i] != '"' || s[i + 37] != '"' {
        return None;
    }
    let u = crate::tags::subvec(s, i + 1, i + 37);
    assert(u@ == s@.subrange(i + 1, i + 37));
    if u[8] != '-' || u[13] != '-' || u[18] != '-' || u[23] != '-' {
        return None;
    }
    let mut k: usize = 0;
    while k < 36
        invariant
            u@.len() == 36,
            u@ == s@.subrange(i + 1, i + 37),
            k <= 36,
            forall|m: int|
                0 <= m < k && m != 8 && m != 13 && m != 18 && m != 23 ==> is_hexd(
                    #[trigger] u@[m],
                ),
        decreases 36 - k,
    {
        if k != 8 && k != 13 && k != 18 && k != 23 {
            if !is_hexd_c(u[k]) {
                return None;
            }
        }
        k += 1;
    }
    assert(uuid_shape(u@));
    let mut ds = crate::tags::subvec(&u, 0, 8);
    let mut g = crate::tags::subvec(&u, 9, 13);
    ds.append(&mut g);
    let mut g = crate::tags::subvec(&u, 14, 18);
    ds.append(&mut g);
    let mut g = crate::tags::subvec(&u, 19, 23);
    ds.append(&mut g);
    let mut g = crate::tags::subvec(&u, 24, 36);
    ds.append(&mut g);
    assert(ds@ =~= hex_digits_of(u@));
    assert(ds@.len() == 32);
    assert(forall|m: int| 0 <= m < 32 ==> is_hexd(#[trigger] ds@[m]));
    let mut v: u128 = 0;
    let mut k: usize = 0;
    while k < 32
        invariant
            ds@.len() == 32,
            forall|m: int| 0 <= m < 32 ==> is_hexd(#[trigger] ds@[m]),
            k <= 32,
            v as int == hexval(ds@.subrange(0, k as int)),
        decreases 32 - k,
    {
        let h = hexv_exec(ds[k]);
        proof {
            let pre = ds@.subrange(0, k as int);
            let cur = ds@.subrange(0, k as int + 1);
            assert(cur.drop_last() =~= pre);
            assert(cur.last() == ds@[k as int]);
            lemma_hexval_bound(pre);
            lemma_pow16_le((k + 1) as nat, 32);
            lemma_pow16_32();
        }
        v = v * 16 + (h as u128);
        k += 1;
    }
    proof {
        assert(ds@.subrange(0, 32) =~= ds@);
        lemma_hexval_bound(ds@);
        lemma_pow16_32();
    }
    Some((v, i + 38))
}

/// Reads a quoted due time and checks it on the calendar.
fn dt_exec(s: &Vec<char>, i: usize) -> (r: Option<(DateTime, usize)>)
    ensures
        match r {
            None => p_dt(s@, i as int) is None,
            Some((v, j)) => p_dt(s@, i as int) == Some((v, j as int)) && j <= s@.len(),
        },
{
    let slen = s.len();
    assert(s@.len() == slen);
    if i > s.len() || s.len() - i < 21 {
        return None;
    }
    let u = crate::tags::subvec(s, i, i + 21);
    assert(u@ == s@.subrange(i as int, i + 21));
    let shape_ok = u[0] == '"' && u[20] == '"' && digit_ok(u[1]) && digit_ok(u[2]) && digit_ok(u[3])
        && digit_ok(u[4]) && u[5] == '-' && digit_ok(u[6]) && digit_ok(u[7]) && u[8] == '-'
        && digit_ok(u[9]) && digit_ok(u[10]) && u[11] == 'T' && digit_ok(u[12]) && digit_ok(u[13])
        && u[14] == ':' && digit_ok(u[15]) && digit_ok(u[16]) && u[17] == ':' && u[18] == '0'
        && u[19] == '0';
    if !shape_ok {
        return None;
    }
    let dt = DateTime {
        year: (dv(u[1]) * 1000 + dv(u[2]) * 100 + dv(u[3]) * 10 + dv(u[4])) as u16,
        month: (dv(u[6]) * 10 + dv(u[7])) as u8,
        day: (dv(u[9]) * 10 + dv(u[10])) as u8,
        hour: (dv(u[12]) * 10 + dv(u[13])) as u8,
        minute: (dv(u[15]) * 10 + dv(u[16])) as u8,
    };
    if dt.month < 1 || dt.month > 12 {
        return None;
    }
    if dt.day < 1 || dt.day > crate::tags::days_in_month_exec(dt.year, dt.month) {
        return None;
    }
    if dt.hour > 23 || dt.minute > 59 {
        return None;
    }
    assert(dt_valid(dt));
    Some((dt, i + 21))
}

fn digit_ok(c: char) -> (r: bool)
    ensures
        r == crate::tags::is_digit(c),
{
    '0' <= c && c <= '9'
}

fn dv(c: char) -> (r: u32)
    requires
        crate::tags::is_digit(c),
    ensures
        r == crate::tags::digit_val(c),
        r <= 9,
{
    (c as u8 - 48) as u32
}

fn status_exec(s: &Vec<char>, i: usize) -> (r: Option<(TaskStatus, usize)>)
    ensures
        match r {
            None => p_status(s@, i as int) is None,
            Some((v, j)) => p_status(s@, i as int) == Some((v, j as int)) && j <= s@.len(),
        },
{
    let slen = s.len();
    assert(s@.len() == slen);
    let todo = vec!['"', 'T', 'o', 'd', 'o', '"'];
    assert(todo@ =~= quoted(status_word(TaskStatus::Todo)));
    let doing = vec!['"', 'D', 'o', 'i', 'n', 'g', '"'];
    assert(doing@ =~= quoted(status_word(TaskStatus::Doing)));
    let done = vec!['"', 'D', 'o', 'n', 'e', '"'];
    assert(done@ =~= quoted(status_word(TaskStatus::Done)));
    if at_exec(s, i, &todo) {
        Some((TaskStatus::Todo, i + 6))
    } else if at_exec(s, i, &doing) {
        Some((TaskStatus::Doing, i + 7))
    } else if at_exec(s, i, &done) {
        Some((TaskStatus::Done, i + 6))
    } else {
        None
    }
}

fn prio_exec(s: &Vec<char>, i: usize) -> (r: Option<(Priority, usize)>)
    ensures
        match r {
            None => p_prio(s@, i as int) is None,
            Some((v, j)) => p_prio(s@, i as int) == Some((v, j as int)) && j <= s@.len(),
        },
{
    let slen = s.len();
    assert(s@.len() == slen);
    let low = vec!['"', 'L', 'o', 'w', '"'];
    assert(low@ =~= quoted(prio_word(Priority::Low)));
    let medium = vec!['"', 'M', 'e', 'd', 'i', 'u', 'm', '"'];
    assert(medium@ =~= quoted(prio_word(Priority::Medium)));
    let high = vec!['"', 'H', 'i', 'g', 'h', '"'];
    assert(high@ =~= quoted(prio_word(Priority::High)));
    if at_exec(s, i, &low) {
        Some((Priority::Low, i + 5))
    } else if at_exec(s, i, &medium) {
        Some((Priority::Medium, i + 8))
    } else if at_exec(s, i, &high) {
        Some((Priority::High, i + 6))
    } else {
        None
    }
}

fn null_exec(s: &Vec<char>, i: usize) -> (r: bool)
    ensures
        r == at(s@, i as int, lit_null()),
{
    let null_f = vec!['n', 'u', 'l', 'l'];
    assert(null_f@ =~= lit_null());
    at_exec(s, i, &null_f)
}

fn opt_str_exec(s: &Vec<char>, i: usize) -> (r: Option<(Option<Vec<char>>, usize)>)
    ensures
        match r {
            None => p_opt_str(s@, i as int) is None,
            Some((v, j)) => p_opt_str(s@, i as int) == Some(
                (
                    match v {
                        Some(c) => Some(c@),
                        None => None,
                    },
                    j as int,
                ),
            ) && j <= s@.len(),
        },
{
    let slen = s.len();
    assert(s@.len() == slen);
    if null_exec(s, i) {
        return Some((None, i + 4));
    }
    match string_exec(s, i) {
        Some((v, j)) => Some((Some(v), j)),
        None => None,
    }
}

fn opt_dt_exec(s: &Vec<char>, i: usize) -> (r: Option<(Option<DateTime>, usize)>)
    ensures
        match r {
            None => p_opt_dt(s@, i as int) is None,
            Some((v, j)) => p_opt_dt(s@, i as int) == Some((v, j as int)) && j <= s@.len(),
        },
{
    let slen = s.len();
    assert(s@.len() == slen);
    if null_exec(s, i) {
        return Some((None, i + 4));
    }
    match dt_exec(s, i) {
        Some((v, j)) => Some((Some(v), j)),
        None => None,
    }
}

/// Reads one record.
#[verifier::rlimit(100)]
fn task_exec(s: &Vec<char>, i: usize, legacy: bool) -> (r: Option<(Task, usize)>)
    ensures
        match r {
            None => p_task(s@, i as int, legacy) is None,
            Some((t, j)) => p_task(s@, i as int, legacy) == Some((t@, j as int)) && j <= s@.len(),
        },
{
    let slen = s.len();
    assert(s@.len() == slen);
    let f_open_id = vec![
        ' ',
        ' ',
        '{',
        '\n',
        ' ',
        ' ',
        ' ',
        ' ',
        '"',
        'i',
        'd',
        '"',
        ':',
        ' ',
    ];
    assert(f_open_id@ =~= lit_obj_open() + lit_key_id());
    let j0 = if at_exec(s, i, &f_open_id) {
        i + 14
    } else {
        return None;
    };
    let (id, j1) = match uuid_exec(s, j0) {
        Some(x) => x,
        None => {
            return None;
        },
    };
    let f_desc = vec![
        ',',
        '\n',
        ' ',
        ' ',
        ' ',
        ' ',
        '"',
        'd',
        'e',
        's',
        'c',
        'r',
        'i',
        'p',
        't',
        'i',
        'o',
        'n',
        '"',
        ':',
        ' ',
    ];
    assert(f_desc@ =~= lit_sep() + lit_key_desc());
    let j2 = if at_exec(s, j1, &f_desc) {
        j1 + 21
    } else {
        return None;
    };
    let (desc, j3) = match string_exec(s, j2) {
        Some(x) => x,
        None => {
            return None;
        },
    };
    let f_status = vec![
        ',',
        '\n',
        ' ',
        ' ',
        ' ',
        ' ',
        '"',
        's',
        't',
        'a',
        't',
        'u',
        's',
        '"',
        ':',
        ' ',
    ];
    assert(f_status@ =~= lit_sep() + lit_key_status());
    let j4 = if at_exec(s, j3, &f_status) {
        j3 + 16
    } else {
        return None;
    };
    let (st, j5) = match status_exec(s, j4) {
        Some(x) => x,
        None => {
            return None;
        },
    };
    let f_cat = vec![
        ',',
        '\n',
        ' ',
        ' ',
        ' ',
        ' ',
        '"',
        'c',
        'a',
        't',
        'e',
        'g',
        'o',
        'r',
        'y',
        '"',
        ':',
        ' ',
    ];
    assert(f_cat@ =~= lit_sep() + lit_key_cat());
    let j6 = if at_exec(s, j5, &f_cat) {
        j5 + 18
    } else {
        return None;
    };
    let (cat, j7) = match opt_str_exec(s, j6) {
        Some(x) => x,
        None => {
            return None;
        },
    };
    let f_due = vec![
        ',',
        '\n',
        ' ',
        ' ',
        ' ',
        ' ',
        '"',
        'd',
        'u',
        'e',
        '_',
        't',
        'i',
        'm',
        'e',
        '"',
        ':',
        ' ',
    ];
    assert(f_due@ =~= lit_sep() + lit_key_due());
    let j8 = if at_exec(s, j7, &f_due) {
        j7 + 18
    } else {
        return None;
    };
    let (due, j9) = match opt_dt_exec(s, j8) {
        Some(x) => x,
        None => {
            return None;
        },
    };
    let f_close = vec!['\n', ' ', ' ', '}'];
    assert(f_close@ =~= lit_obj_close());
    if legacy {
        let j10 = if at_exec(s, j9, &f_close) {
            j9 + 4
        } else {
            return None;
        };
        let t = Task {
            id,
            description: desc,
            status: st,
            category: cat,
            due_time: due,
            priority: Priority::Low,
        };
        Some((t, j10))
    } else {
        let f_prio = vec![
            ',',
            '\n',
            ' ',
            ' ',
            ' ',
            ' ',
            '"',
            'p',
            'r',
            'i',
            'o',
            'r',
            'i',
            't',
            'y',
            '"',
            ':',
            ' ',
        ];
        assert(f_prio@ =~= lit_sep() + lit_key_prio());
        let j10 = if at_exec(s, j9, &f_prio) {
            j9 + 18
        } else {
            return None;
        };
        let (pr, j11) = match prio_exec(s, j10) {
            Some(x) => x,
            None => {
                return None;
            },
        };
        let j12 = if at_exec(s, j11, &f_close) {
            j11 + 4
        } else {
            return None;
        };
        let t = Task {
            id,
            description: desc,
            status: st,
            category: cat,
            due_time: due,
            priority: pr,
        };
        Some((t, j12))
    }
}

/// Reads a non-empty record list.
#[verifier::rlimit(100)]
fn list_exec(s: &Vec<char>, i0: usize, legacy: bool) -> (r: Option<(Vec<Task>, usize)>)
    requires
        i0 <= s@.len(),
    ensures
        match r {
            None => p_list(s@, i0 as int, legacy) is None,
            Some((ts, j)) => p_list(s@, i0 as int, legacy) == Some(
                (crate::store::views(ts@), j as int),
            ) && j <= s@.len(),
        },
{
    let slen = s.len();
    assert(s@.len() == slen);
    let mut acc: Vec<Task> = Vec::new();
    let mut i: usize = i0;
    proof {
        lemma_list_end(s@, i0 as int, legacy);
        match p_list(s@, i0 as int, legacy) {
            Some((rest, end)) => {
                assert(crate::store::views(acc@) + rest =~= rest);
            },
            None => {},
        }
    }
    loop
        invariant
            i0 <= i <= s@.len(),
            s@.len() <= usize::MAX,
            match p_list(s@, i as int, legacy) {
                None => p_list(s@, i0 as int, legacy) is None,
                Some((rest, end)) => p_list(s@, i0 as int, legacy) == Some(
                    (crate::store::views(acc@) + rest, end),
                ) && end <= s@.len(),
            },
        decreases s@.len() - i,
    {
        let (t, j) = match task_exec(s, i, legacy) {
            Some(x) => x,
            None => {
                return None;
            },
        };
        proof {
            lemma_task_end(s@, i as int, legacy);
        }
        let ghost acc0 = acc@;
        let sep = vec![',', '\n'];
        assert(sep@ =~= lit_sep());
        acc.push(t);
        proof {
            assert(crate::store::views(acc@) =~= crate::store::views(acc0).push(t@));
        }
        if at_exec(s, j, &sep) {
            proof {
                match p_list(s@, j + 2, legacy) {
                    Some((rest, end)) => {
                        assert(p_list(s@, i as int, legacy) == Some((seq![t@] + rest, end)));
                        assert(crate::store::views(acc0) + (seq![t@] + rest) =~= crate::store::views(
                            acc@,
                        ) + rest);
                    },
                    None => {
                        assert(p_list(s@, i as int, legacy) is None);
                    },
                }
            }
            if j + 2 <= i {
                return None;
            }
            i = j + 2;
        } else {
            proof {
                assert(p_list(s@, i as int, legacy) == Some((seq![t@], j as int)));
                assert(crate::store::views(acc0) + seq![t@] =~= crate::store::views(acc@));
            }
            return Some((acc, j));
        }
    }
}

/// Reads a whole document under one schema.
fn doc_exec(s: &Vec<char>, legacy: bool) -> (r: Option<Vec<Task>>)
    ensures
        match r {
            None => p_doc(s@, legacy) is None,
            Some(ts) => p_doc(s@, legacy) == Some(crate::store::views(ts@)),
        },
{
    let slen = s.len();
    assert(s@.len() == slen);
    let empty_doc = vec!['[', ']'];
    assert(empty_doc@ =~= lit_arr_empty());
    if crate::tags::chars_eq(s, &empty_doc) {
        let ts: Vec<Task> = Vec::new();
        assert(crate::store::views(ts@) =~= Seq::<TaskView>::empty());
        return Some(ts);
    }
    let open_f = vec!['[', '\n'];
    assert(open_f@ =~= lit_arr_open());
    if !at_exec(s, 0, &open_f) {
        return None;
    }
    let (ts, j) = match list_exec(s, 2, legacy) {
        Some(x) => x,
        None => {
            return None;
        },
    };
    let close_f = vec!['\n', ']'];
    assert(close_f@ =~= lit_arr_close());
    if at_exec(s, j, &close_f) && j + 2 == s.len() {
        Some(ts)
    } else {
        None
    }
}

impl crate::store::TaskStore {
    /// Serializes the whole collection under the current schema, exactly as
    /// the loader expects it back; writing the result to storage is the
    /// caller's step, and the collection itself is untouched.
    #[verifier::rlimit(100)]
    pub fn save_tasks(&self) -> (out: Vec<char>)
        ensures
            out@ == spec_save(self@),
    {
        let n = self.tasks.len();
        if n == 0 {
            let out = vec!['[', ']'];
            assert(out@ =~= spec_save(self@));
            return out;
        }
        let mut out = vec!['[', '\n'];
        assert(out@ =~= lit_arr_open());
        let mut i: usize = 0;
        while i < n
            invariant
                i <= n,
                n == self.tasks@.len(),
                out@ == lit_arr_open() + ser_list(self@.subrange(0, i as int), false),
            decreases n - i,
        {
            let ghost pre = self@.subrange(0, i as int);
            let ghost cur = self@.subrange(0, i as int + 1);
            if i > 0 {
                push_sep(&mut out);
            }
            push_task(&mut out, &self.tasks[i]);
            i += 1;
            proof {
                assert(cur.drop_last() =~= pre);
                assert(cur.last() == self@[i - 1]);
                assert(ser_list(cur, false) == ser_list(pre, false) + (if cur.len() == 1 {
                    Seq::<char>::empty()
                } else {
                    lit_sep()
                }) + ser_task(self@[i - 1]));
                assert(out@ =~= lit_arr_open() + ser_list(cur, false));
            }
        }
        out.push('\n');
        out.push(']');
        assert(self@.subrange(0, n as int) =~= self@);
        assert(out@ =~= spec_save(self@));
        out
    }

    /// Replaces the collection with what the stored text holds. Absent
    /// storage (`None`) is not an error: the collection comes up empty. Text
    /// that fits the current schema is taken as it stands; text that fits
    /// only the legacy schema is upgraded, every record getting priority Low.
    /// Text that fits neither leaves the collection empty and reports
    /// `StorageCorrupt`, so the caller stays usable.
    pub fn load_tasks(&mut self, content: Option<&Vec<char>>) -> (r: Result<(), StoreError>)
        ensures
            match content {
                None => r is Ok && final(self)@ == Seq::<TaskView>::empty(),
                Some(text) => match spec_load(text@) {
                    Some((ts, _legacy)) => r is Ok && final(self)@ == ts,
                    None => r == Err::<(), StoreError>(StoreError::StorageCorrupt) && final(self)@
                        == Seq::<TaskView>::empty(),
                },
            },
    {
        match content {
            None => {
                self.tasks = Vec::new();
                assert(final(self)@ =~= Seq::<TaskView>::empty());
                Ok(())
            },
            Some(text) => {
                match doc_exec(text, false) {
                    Some(ts) => {
                        self.tasks = ts;
                        Ok(())
                    },
                    None => match doc_exec(text, true) {
                        Some(ts) => {
                            self.tasks = ts;
                            Ok(())
                        },
                        None => {
                            self.tasks = Vec::new();
                            assert(final(self)@ =~= Seq::<TaskView>::empty());
                            Err(StoreError::StorageCorrupt)
                        },
                    },
                }
            },
        }
    }
}

} // verus!
