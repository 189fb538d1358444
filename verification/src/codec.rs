//! The persisted task document: a pretty-printed JSON object
//! `{ "list": [ ... ] }` whose items spell the five task fields in a fixed
//! layout, with timestamps as `YYYY-MM-DDTHH:MM:SS+HH:MM` strings. This
//! module renders the document and reads it back; reading accepts exactly
//! the layout written here. Quotes and backslashes in descriptions are
//! escaped with a backslash, control characters as `\u00XX`, so the stored
//! text is valid JSON; other characters are stored as they are.

use vstd::prelude::*;
use crate::errors::TaskError;
use crate::command::{spec_digits_val, spec_all_digits};
use crate::task::{Status, Task, TaskList};
use crate::time::Timestamp;
use crate::text::{spec_dec2, spec_dec4, spec_digit_char, spec_digit_val, spec_is_digit,
    text_eq,
    spec_digits, spec_int_digits, push_dec2, push_dec4, push_int_digits, chars_to_string,
    str_to_chars, digit_val};

verus! {

/// The mathematical shadow of a task: the description as a character
/// sequence, so the document and its contracts can speak of tasks directly.
pub ghost struct SpecTask {
    pub id: i32,
    pub desc: Seq<char>,
    pub status: Status,
    pub create_at: Timestamp,
    pub update_at: Timestamp,
}

/// The shadow of a stored task.
pub open spec fn spec_task_of(t: Task) -> SpecTask {
    SpecTask {
        id: t.id,
        desc: t.desc@,
        status: t.status,
        create_at: t.create_at,
        update_at: t.update_at,
    }
}

/// The shadow of a whole store.
pub open spec fn spec_tasks_of(s: Seq<Task>) -> Seq<SpecTask> {
    s.map_values(|t: Task| spec_task_of(t))
}

/// Both timestamps of every task fit the stored form.
pub open spec fn spec_dates_wf(l: Seq<SpecTask>) -> bool {
    forall|i: int|
        0 <= i < l.len() ==> (#[trigger] l[i]).create_at.wf() && l[i].update_at.wf()
}

/// The lowercase hex digit character for `d` (meaningful for `0 <= d <= 15`).
pub open spec fn spec_hex_char(d: int) -> char {
    if d < 10 {
        spec_digit_char(d)
    } else if d == 10 {
        'a'
    } else if d == 11 {
        'b'
    } else if d == 12 {
        'c'
    } else if d == 13 {
        'd'
    } else if d == 14 {
        'e'
    } else {
        'f'
    }
}

/// The value of a lowercase hex digit character, or `-1`.
pub open spec fn spec_hex_val(c: char) -> int {
    if c == 'a' {
        10
    } else if c == 'b' {
        11
    } else if c == 'c' {
        12
    } else if c == 'd' {
        13
    } else if c == 'e' {
        14
    } else if c == 'f' {
        15
    } else {
        spec_digit_val(c)
    }
}

/// The control character with code `v` (meaningful for `0 <= v <= 31`).
pub open spec fn spec_control_char(v: int) -> char {
    if v == 0 {
        '\u{0}'
    } else if v == 1 {
        '\u{1}'
    } else if v == 2 {
        '\u{2}'
    } else if v == 3 {
        '\u{3}'
    } else if v == 4 {
        '\u{4}'
    } else if v == 5 {
        '\u{5}'
    } else if v == 6 {
        '\u{6}'
    } else if v == 7 {
        '\u{7}'
    } else if v == 8 {
        '\u{8}'
    } else if v == 9 {
        '\u{9}'
    } else if v == 10 {
        '\u{a}'
    } else if v == 11 {
        '\u{b}'
    } else if v == 12 {
        '\u{c}'
    } else if v == 13 {
        '\u{d}'
    } else if v == 14 {
        '\u{e}'
    } else if v == 15 {
        '\u{f}'
    } else if v == 16 {
        '\u{10}'
    } else if v == 17 {
        '\u{11}'
    } else if v == 18 {
        '\u{12}'
    } else if v == 19 {
        '\u{13}'
    } else if v == 20 {
        '\u{14}'
    } else if v == 21 {
        '\u{15}'
    } else if v == 22 {
        '\u{16}'
    } else if v == 23 {
        '\u{17}'
    } else if v == 24 {
        '\u{18}'
    } else if v == 25 {
        '\u{19}'
    } else if v == 26 {
        '\u{1a}'
    } else if v == 27 {
        '\u{1b}'
    } else if v == 28 {
        '\u{1c}'
    } else if v == 29 {
        '\u{1d}'
    } else if v == 30 {
        '\u{1e}'
    } else {
        '\u{1f}'
    }
}

fn hex_char(d: u32) -> (c: char)
    requires
        d <= 15,
    ensures
        c == spec_hex_char(d as int),
{
    match d {
        0 => '0',
        1 => '1',
        2 => '2',
        3 => '3',
        4 => '4',
        5 => '5',
        6 => '6',
        7 => '7',
        8 => '8',
        9 => '9',
        10 => 'a',
        11 => 'b',
        12 => 'c',
        13 => 'd',
        14 => 'e',
        _ => 'f',
    }
}

fn hex_val(c: char) -> (d: i32)
    ensures
        d == spec_hex_val(c),
{
    match c {
        'a' => 10,
        'b' => 11,
        'c' => 12,
        'd' => 13,
        'e' => 14,
        'f' => 15,
        _ => digit_val(c),
    }
}

fn control_char(v: u32) -> (c: char)
    requires
        v <= 31,
    ensures
        c == spec_control_char(v as int),
{
    match v {
        0 => '\u{0}',
        1 => '\u{1}',
        2 => '\u{2}',
        3 => '\u{3}',
        4 => '\u{4}',
        5 => '\u{5}',
        6 => '\u{6}',
        7 => '\u{7}',
        8 => '\u{8}',
        9 => '\u{9}',
        10 => '\u{a}',
        11 => '\u{b}',
        12 => '\u{c}',
        13 => '\u{d}',
        14 => '\u{e}',
        15 => '\u{f}',
        16 => '\u{10}',
        17 => '\u{11}',
        18 => '\u{12}',
        19 => '\u{13}',
        20 => '\u{14}',
        21 => '\u{15}',
        22 => '\u{16}',
        23 => '\u{17}',
        24 => '\u{18}',
        25 => '\u{19}',
        26 => '\u{1a}',
        27 => '\u{1b}',
        28 => '\u{1c}',
        29 => '\u{1d}',
        30 => '\u{1e}',
        _ => '\u{1f}',
    }
}

/// A control character's code round-trips through its rendering.
proof fn lemma_control_char_code(c: char)
    requires
        (c as u32) < 0x20,
    ensures
        spec_control_char((c as u32) as int) == c,
{
}

/// How one description character is stored: quote and backslash get a
/// backslash prefix, control characters become `\u00XX`, everything else
/// stands as it is.
pub open spec fn spec_escape_char(c: char) -> Seq<char> {
    if c == '"' {
        seq!['\\', '"']
    } else if c == '\\' {
        seq!['\\', '\\']
    } else if (c as u32) < 0x20 {
        seq!['\\', 'u', '0', '0', spec_hex_char((c as u32) as int / 16), spec_hex_char(
            (c as u32) as int % 16,
        )]
    } else {
        seq![c]
    }
}

/// How a description is stored between its quotes.
pub open spec fn spec_escape(s: Seq<char>) -> Seq<char>
    decreases s.len(),
{
    if s.len() == 0 {
        Seq::empty()
    } else {
        spec_escape_char(s[0]) + spec_escape(s.skip(1))
    }
}

/// The stored name of a status.
pub open spec fn spec_status_name(st: Status) -> Seq<char> {
    match st {
        Status::Todo => "Todo"@,
        Status::Progress => "Progress"@,
        Status::Done => "Done"@,
    }
}

/// The stored form of a timestamp: `YYYY-MM-DDTHH:MM:SS+HH:MM`, 25
/// characters, the sign being `-` exactly for offsets west of UTC.
pub open spec fn spec_rfc3339(t: Timestamp) -> Seq<char> {
    let a = if t.offset_min < 0 {
        -(t.offset_min as int)
    } else {
        t.offset_min as int
    };
    let sign = if t.offset_min < 0 {
        '-'
    } else {
        '+'
    };
    spec_dec4(t.year as int) + seq!['-'] + spec_dec2(t.month as int) + seq!['-'] + spec_dec2(
        t.day as int,
    ) + seq!['T'] + spec_dec2(t.hour as int) + seq![':'] + spec_dec2(t.minute as int) + seq![':']
        + spec_dec2(t.second as int) + seq![sign] + spec_dec2(a / 60) + seq![':'] + spec_dec2(
        a % 60,
    )
}

/// One stored task item, indented as an element of the list.
pub open spec fn spec_render_task(t: SpecTask) -> Seq<char> {
    "    {\n      \"id\": "@ + spec_int_digits(t.id as int) + ",\n      \"desc\": \""@
        + spec_escape(t.desc) + "\",\n      \"status\": \""@ + spec_status_name(t.status)
        + "\",\n      \"create_at\": \""@ + spec_rfc3339(t.create_at)
        + "\",\n      \"update_at\": \""@ + spec_rfc3339(t.update_at) + "\"\n    }"@
}

/// The stored items, separated by `,\n`.
pub open spec fn spec_render_items(l: Seq<SpecTask>) -> Seq<char>
    decreases l.len(),
{
    if l.len() == 0 {
        Seq::empty()
    } else if l.len() == 1 {
        spec_render_task(l[0])
    } else {
        spec_render_task(l[0]) + ",\n"@ + spec_render_items(l.skip(1))
    }
}

/// The whole stored document.
pub open spec fn spec_render(l: Seq<SpecTask>) -> Seq<char> {
    "{\n  \"list\": "@ + if l.len() == 0 {
        "[]\n}"@
    } else {
        "[\n"@ + spec_render_items(l) + "\n  ]\n}"@
    }
}

/// Sequence concatenation regroups freely.
proof fn lemma_add_assoc(x: Seq<char>, y: Seq<char>, z: Seq<char>)
    ensures
        x + (y + z) == x + y + z,
{
    assert(x + (y + z) =~= x + y + z);
}

/// The items render grows at the back one task at a time.
#[verifier::rlimit(100)]
proof fn lemma_render_items_snoc(l: Seq<SpecTask>)
    requires
        l.len() >= 2,
    ensures
        spec_render_items(l) == spec_render_items(l.drop_last()) + ",\n"@ + spec_render_task(
            l.last(),
        ),
    decreases l.len(),
{
    if l.len() == 2 {
        assert(l.skip(1).len() == 1);
        assert(l.skip(1)[0] == l.last());
        assert(l.drop_last().len() == 1);
        assert(l.drop_last()[0] == l[0]);
        assert(spec_render_items(l.skip(1)) == spec_render_task(l.last()));
        assert(spec_render_items(l.drop_last()) == spec_render_task(l[0]));
    } else {
        lemma_render_items_snoc(l.skip(1));
        assert(l.skip(1).drop_last() =~= l.drop_last().skip(1));
        assert(l.skip(1).last() == l.last());
        assert(l.drop_last()[0] == l[0]);
        assert(l.drop_last().len() >= 2);
        let a = spec_render_task(l[0]);
        let b = spec_render_items(l.drop_last().skip(1));
        let c = spec_render_task(l.last());
        let sep = ",\n"@;
        assert(spec_render_items(l.skip(1)) == b + sep + c);
        assert(spec_render_items(l) == a + sep + (b + sep + c));
        assert(spec_render_items(l.drop_last()) == a + sep + b);
        lemma_add_assoc(a + sep, b + sep, c);
        lemma_add_assoc(a + sep, b, sep);
    }
}


/// The length of the digit run opening `s`.
pub open spec fn spec_digit_run(s: Seq<char>) -> int
    decreases s.len(),
{
    if s.len() == 0 || !spec_is_digit(s[0]) {
        0
    } else {
        1 + spec_digit_run(s.skip(1))
    }
}

/// The digit run is the longest digit prefix.
proof fn lemma_digit_run_bounds(s: Seq<char>)
    ensures
        0 <= spec_digit_run(s) <= s.len(),
        forall|j: int| 0 <= j < spec_digit_run(s) ==> spec_is_digit(#[trigger] s[j]),
        spec_digit_run(s) < s.len() ==> !spec_is_digit(s[spec_digit_run(s)]),
    decreases s.len(),
{
    if s.len() == 0 || !spec_is_digit(s[0]) {
    } else {
        lemma_digit_run_bounds(s.skip(1));
        assert forall|j: int| 0 <= j < spec_digit_run(s) implies spec_is_digit(
            #[trigger] s[j],
        ) by {
            if j > 0 {
                assert(s.skip(1)[j - 1] == s[j]);
            }
        }
        if spec_digit_run(s) < s.len() {
            assert(s.skip(1)[spec_digit_run(s) - 1] == s[spec_digit_run(s)]);
        }
    }
}

/// What reading a stored id yields: an optional minus sign, then digits
/// with no leading zero, denoting a value in 32-bit range; the second
/// component is the count of characters read.
pub open spec fn spec_parse_int(s: Seq<char>) -> Option<(i32, int)> {
    let neg = s.len() > 0 && s[0] == '-';
    let t = if neg {
        s.skip(1)
    } else {
        s
    };
    let k = spec_digit_run(t);
    if k == 0 {
        None
    } else if k > 1 && t[0] == '0' {
        None
    } else {
        let v = spec_digits_val(t.take(k));
        if neg {
            if 1 <= v <= 0x8000_0000 {
                Some(((-v) as i32, 1 + k))
            } else {
                None
            }
        } else {
            if v <= 0x7fff_ffff {
                Some((v as i32, k))
            } else {
                None
            }
        }
    }
}

/// The digit rendering of a nonnegative number is a nonempty digit string
/// without a leading zero (unless it is `0` itself), and it denotes the
/// number again.
proof fn lemma_digits_props(m: int)
    requires
        0 <= m,
    ensures
        spec_digits(m).len() >= 1,
        forall|j: int| 0 <= j < spec_digits(m).len() ==> spec_is_digit(#[trigger] spec_digits(m)[j]),
        m > 0 ==> spec_digits(m)[0] != '0',
        m == 0 ==> spec_digits(m) == seq!['0'],
        spec_digits_val(spec_digits(m)) == m,
    decreases m,
{
    if m < 10 {
        crate::text::lemma_digit_char_val(m);
        assert(spec_digits(m).drop_last() =~= Seq::<char>::empty());
        assert(spec_digits_val(Seq::<char>::empty()) == 0);
        crate::text::lemma_digit_val_char(spec_digit_char(m));
    } else {
        lemma_digits_props(m / 10);
        crate::text::lemma_digit_char_val(m % 10);
        let d = spec_digits(m / 10);
        assert(spec_digits(m) == d.push(spec_digit_char(m % 10)));
        assert forall|j: int| 0 <= j < spec_digits(m).len() implies spec_is_digit(
            #[trigger] spec_digits(m)[j],
        ) by {
            if j < d.len() {
                assert(spec_digits(m)[j] == d[j]);
            }
        }
        assert(spec_digits(m)[0] == d[0]);
        assert(spec_digits(m).drop_last() =~= d);
        assert(spec_digits_val(spec_digits(m)) == spec_digits_val(d) * 10 + (m % 10));
    }
}

/// Law: reading back the rendered form of a 32-bit number yields the
/// number and consumes exactly its rendering, whatever follows, provided
/// what follows does not begin with a digit.
pub proof fn lemma_parse_int_render(n: i32, rest: Seq<char>)
    requires
        rest.len() == 0 || !spec_is_digit(rest[0]),
    ensures
        spec_parse_int(spec_int_digits(n as int) + rest) == Some(
            (n, spec_int_digits(n as int).len() as int),
        ),
{
    let s = spec_int_digits(n as int) + rest;
    if n >= 0 {
        let d = spec_digits(n as int);
        lemma_digits_props(n as int);
        assert(s == d + rest);
        assert(s[0] == d[0]);
        assert(!(s[0] == '-'));
        lemma_digit_run_bounds(s);
        let k = spec_digit_run(s);
        assert forall|j: int| 0 <= j < d.len() implies spec_is_digit(#[trigger] s[j]) by {
            assert(s[j] == d[j]);
        }
        if k < d.len() {
            assert(spec_is_digit(s[k]));
        }
        if k > d.len() {
            assert(s[d.len() as int] == rest[0]);
            assert(spec_is_digit(s[d.len() as int]));
        }
        assert(k == d.len());
        assert(s.take(k) =~= d);
    } else {
        let m = -(n as int);
        let d = spec_digits(m);
        lemma_digits_props(m);
        assert(spec_int_digits(n as int) == seq!['-'] + d);
        assert(s[0] == (seq!['-'] + d)[0]);
        assert(s[0] == '-');
        let t = s.skip(1);
        assert(t =~= d + rest);
        lemma_digit_run_bounds(t);
        let k = spec_digit_run(t);
        assert forall|j: int| 0 <= j < d.len() implies spec_is_digit(#[trigger] t[j]) by {
            assert(t[j] == d[j]);
        }
        if k < d.len() {
            assert(spec_is_digit(t[k]));
        }
        if k > d.len() {
            assert(t[d.len() as int] == rest[0]);
            assert(spec_is_digit(t[d.len() as int]));
        }
        assert(k == d.len());
        assert(t.take(k) =~= d);
        assert(t[0] == d[0]);
        assert(spec_digits_val(t.take(k)) == m);
        assert(1 <= m <= 0x8000_0000);
        assert(spec_parse_int(s) == Some(((-m) as i32, 1 + k)));
        assert((-m) as i32 == n);
        assert(1 + k == spec_int_digits(n as int).len());
    }
}

/// What reading a stored description yields: characters up to an unescaped
/// closing quote, `\"` and `\\` standing for a quote and a backslash; the
/// count includes the closing quote.
pub open spec fn spec_parse_string(s: Seq<char>) -> Option<(Seq<char>, int)>
    decreases s.len(),
{
    if s.len() == 0 {
        None
    } else if s[0] == '"' {
        Some((Seq::empty(), 1))
    } else if s[0] == '\\' {
        if s.len() >= 2 && (s[1] == '"' || s[1] == '\\') {
            match spec_parse_string(s.skip(2)) {
                None => None,
                Some((r, n)) => Some((seq![s[1]] + r, 2 + n)),
            }
        } else if s.len() >= 6 && s[1] == 'u' && s[2] == '0' && s[3] == '0' && spec_hex_val(s[4])
            >= 0 && spec_hex_val(s[5]) >= 0 && spec_hex_val(s[4]) * 16 + spec_hex_val(s[5])
            < 0x20 {
            match spec_parse_string(s.skip(6)) {
                None => None,
                Some(
                    (r, n),
                ) => Some(
                    (seq![spec_control_char(spec_hex_val(s[4]) * 16 + spec_hex_val(s[5]))] + r,
                    6 + n),
                ),
            }
        } else {
            None
        }
    } else {
        match spec_parse_string(s.skip(1)) {
            None => None,
            Some((r, n)) => Some((seq![s[0]] + r, 1 + n)),
        }
    }
}

/// Law: reading back an escaped description followed by its closing quote
/// yields the description unchanged, whatever follows the quote.
pub proof fn lemma_parse_string_escape(x: Seq<char>, rest: Seq<char>)
    ensures
        spec_parse_string(spec_escape(x) + seq!['"'] + rest) == Some(
            (x, spec_escape(x).len() as int + 1),
        ),
    decreases x.len(),
{
    let s = spec_escape(x) + seq!['"'] + rest;
    if x.len() == 0 {
        assert(s =~= seq!['"'] + rest);
        assert(s[0] == '"');
        assert(x =~= Seq::<char>::empty());
    } else {
        lemma_parse_string_escape(x.skip(1), rest);
        let e0 = spec_escape_char(x[0]);
        let etail = spec_escape(x.skip(1));
        assert(spec_escape(x) == e0 + etail);
        if x[0] == '"' || x[0] == '\\' {
            assert(e0.len() == 2 && e0[0] == '\\' && e0[1] == x[0]);
            assert(s[0] == '\\');
            assert(s[1] == x[0]);
            assert(s.len() >= 2);
            assert(s.skip(2) =~= etail + seq!['"'] + rest);
            assert(spec_parse_string(s) == Some(
                (seq![x[0]] + x.skip(1), 2 + etail.len() as int + 1),
            ));
            assert(seq![x[0]] + x.skip(1) =~= x);
            assert(spec_escape(x).len() == 2 + etail.len());
        } else if (x[0] as u32) < 0x20 {
            let v = (x[0] as u32) as int;
            assert(e0.len() == 6);
            assert(e0[0] == '\\' && e0[1] == 'u' && e0[2] == '0' && e0[3] == '0');
            assert(e0[4] == spec_hex_char(v / 16) && e0[5] == spec_hex_char(v % 16));
            assert(s[0] == '\\' && s[1] == 'u' && s[2] == '0' && s[3] == '0');
            assert(s[4] == e0[4] && s[5] == e0[5]);
            assert(spec_hex_val(s[4]) == v / 16);
            assert(spec_hex_val(s[5]) == v % 16);
            assert(spec_hex_val(s[4]) * 16 + spec_hex_val(s[5]) == v);
            assert(s.len() >= 6);
            assert(s.skip(6) =~= etail + seq!['"'] + rest);
            lemma_control_char_code(x[0]);
            assert(spec_parse_string(s) == Some(
                (seq![x[0]] + x.skip(1), 6 + etail.len() as int + 1),
            ));
            assert(seq![x[0]] + x.skip(1) =~= x);
            assert(spec_escape(x).len() == 6 + etail.len());
        } else {
            assert(e0 =~= seq![x[0]]);
            assert(s[0] == x[0]);
            assert(s.skip(1) =~= etail + seq!['"'] + rest);
            assert(spec_parse_string(s) == Some((seq![x[0]] + x.skip(1), 1 + etail.len() as int + 1)));
            assert(seq![x[0]] + x.skip(1) =~= x);
            assert(spec_escape(x).len() == 1 + etail.len());
        }
    }
}

/// The two-digit value at position `i`.
pub open spec fn spec_two(s: Seq<char>, i: int) -> int {
    spec_digit_val(s[i]) * 10 + spec_digit_val(s[i + 1])
}

/// Whether the 18 digit positions of a stored timestamp all hold digits.
pub open spec fn spec_ts_digits(s: Seq<char>) -> bool {
    spec_is_digit(s[0]) && spec_is_digit(s[1]) && spec_is_digit(s[2]) && spec_is_digit(s[3])
        && spec_is_digit(s[5]) && spec_is_digit(s[6]) && spec_is_digit(s[8]) && spec_is_digit(s[9])
        && spec_is_digit(s[11]) && spec_is_digit(s[12]) && spec_is_digit(s[14]) && spec_is_digit(
        s[15],
    ) && spec_is_digit(s[17]) && spec_is_digit(s[18]) && spec_is_digit(s[20]) && spec_is_digit(
        s[21],
    ) && spec_is_digit(s[23]) && spec_is_digit(s[24])
}

/// What reading a stored timestamp yields: exactly 25 characters in the
/// written layout, in-range fields, the offset sign being `-` only for a
/// nonzero westward offset.
pub open spec fn spec_parse_ts(s: Seq<char>) -> Option<Timestamp> {
    if s.len() < 25 {
        None
    } else if !(spec_ts_digits(s) && s[4] == '-' && s[7] == '-' && s[10] == 'T' && s[13] == ':'
        && s[16] == ':' && (s[19] == '+' || s[19] == '-') && s[22] == ':') {
        None
    } else {
        let year = spec_digit_val(s[0]) * 1000 + spec_digit_val(s[1]) * 100 + spec_digit_val(s[2])
            * 10 + spec_digit_val(s[3]);
        let month = spec_two(s, 5);
        let day = spec_two(s, 8);
        let hour = spec_two(s, 11);
        let minute = spec_two(s, 14);
        let second = spec_two(s, 17);
        let oh = spec_two(s, 20);
        let om = spec_two(s, 23);
        let a = oh * 60 + om;
        let off = if s[19] == '-' {
            -a
        } else {
            a
        };
        if 1 <= month <= 12 && 1 <= day <= 31 && hour <= 23 && minute <= 59 && second <= 59 && oh
            <= 23 && om <= 59 && !(s[19] == '-' && a == 0) {
            Some(
                Timestamp {
                    year: year as u16,
                    month: month as u8,
                    day: day as u8,
                    hour: hour as u8,
                    minute: minute as u8,
                    second: second as u8,
                    offset_min: off as i16,
                },
            )
        } else {
            None
        }
    }
}

/// Law: reading back a rendered timestamp yields the timestamp, whatever
/// follows its 25 characters.
#[verifier::rlimit(100)]
pub proof fn lemma_parse_ts_render(t: Timestamp, rest: Seq<char>)
    requires
        t.wf(),
    ensures
        spec_parse_ts(spec_rfc3339(t) + rest) == Some(t),
{
    let r = spec_rfc3339(t);
    let s = r + rest;
    let a = if t.offset_min < 0 {
        -(t.offset_min as int)
    } else {
        t.offset_min as int
    };
    crate::text::lemma_digit_char_val(t.year as int / 1000);
    crate::text::lemma_digit_char_val(t.year as int / 100 % 10);
    crate::text::lemma_digit_char_val(t.year as int / 10 % 10);
    crate::text::lemma_digit_char_val(t.year as int % 10);
    crate::text::lemma_digit_char_val(t.month as int / 10);
    crate::text::lemma_digit_char_val(t.month as int % 10);
    crate::text::lemma_digit_char_val(t.day as int / 10);
    crate::text::lemma_digit_char_val(t.day as int % 10);
    crate::text::lemma_digit_char_val(t.hour as int / 10);
    crate::text::lemma_digit_char_val(t.hour as int % 10);
    crate::text::lemma_digit_char_val(t.minute as int / 10);
    crate::text::lemma_digit_char_val(t.minute as int % 10);
    crate::text::lemma_digit_char_val(t.second as int / 10);
    crate::text::lemma_digit_char_val(t.second as int % 10);
    crate::text::lemma_digit_char_val(a / 60 / 10);
    crate::text::lemma_digit_char_val(a / 60 % 10);
    crate::text::lemma_digit_char_val(a % 60 / 10);
    crate::text::lemma_digit_char_val(a % 60 % 10);
    assert(r.len() == 25);
    assert forall|j: int| 0 <= j < 25 implies #[trigger] s[j] == r[j] by {}
    assert(r[0] == spec_digit_char(t.year as int / 1000));
    assert(r[1] == spec_digit_char(t.year as int / 100 % 10));
    assert(r[2] == spec_digit_char(t.year as int / 10 % 10));
    assert(r[3] == spec_digit_char(t.year as int % 10));
    assert(r[4] == '-');
    assert(r[5] == spec_digit_char(t.month as int / 10));
    assert(r[6] == spec_digit_char(t.month as int % 10));
    assert(r[7] == '-');
    assert(r[8] == spec_digit_char(t.day as int / 10));
    assert(r[9] == spec_digit_char(t.day as int % 10));
    assert(r[10] == 'T');
    assert(r[11] == spec_digit_char(t.hour as int / 10));
    assert(r[12] == spec_digit_char(t.hour as int % 10));
    assert(r[13] == ':');
    assert(r[14] == spec_digit_char(t.minute as int / 10));
    assert(r[15] == spec_digit_char(t.minute as int % 10));
    assert(r[16] == ':');
    assert(r[17] == spec_digit_char(t.second as int / 10));
    assert(r[18] == spec_digit_char(t.second as int % 10));
    assert(r[19] == if t.offset_min < 0 {
        '-'
    } else {
        '+'
    });
    assert(r[20] == spec_digit_char(a / 60 / 10));
    assert(r[21] == spec_digit_char(a / 60 % 10));
    assert(r[22] == ':');
    assert(r[23] == spec_digit_char(a % 60 / 10));
    assert(r[24] == spec_digit_char(a % 60 % 10));
    assert(spec_ts_digits(s));
    assert(spec_two(s, 5) == t.month as int);
    assert(spec_two(s, 8) == t.day as int);
    assert(spec_two(s, 11) == t.hour as int);
    assert(spec_two(s, 14) == t.minute as int);
    assert(spec_two(s, 17) == t.second as int);
    assert(spec_two(s, 20) == a / 60);
    assert(spec_two(s, 23) == a % 60);
    assert(spec_parse_ts(s) == Some(t));
}














/// Appends the characters of `s` to `out`.
fn push_str(out: &mut Vec<char>, s: &str)
    ensures
        final(out)@ == old(out)@ + s@,
{
    let len = s.unicode_len();
    let mut i: usize = 0;
    while i < len
        invariant
            i <= len,
            len == s@.len(),
            out@ =~= old(out)@ + s@.take(i as int),
        decreases len - i,
    {
        out.push(s.get_char(i));
        assert(out@ =~= old(out)@ + s@.take(i as int + 1));
        i += 1;
    }
    proof {
        assert(s@.take(len as int) =~= s@);
    }
}

/// Appends the escaped form of the description to `out`.
fn push_escaped(out: &mut Vec<char>, s: &str)
    ensures
        final(out)@ == old(out)@ + spec_escape(s@),
{
    let len = s.unicode_len();
    let mut i: usize = 0;
    while i < len
        invariant
            i <= len,
            len == s@.len(),
            out@ == old(out)@ + spec_escape(s@.take(i as int)),
        decreases len - i,
    {
        let c = s.get_char(i);
        proof {
            lemma_escape_snoc(s@.take(i as int + 1));
            assert(s@.take(i as int + 1).drop_last() =~= s@.take(i as int));
            assert(s@.take(i as int + 1).last() == c);
        }
        if c == '"' {
            out.push('\\');
            out.push('"');
        } else if c == '\\' {
            out.push('\\');
            out.push('\\');
        } else if (c as u32) < 0x20 {
            let v: u32 = c as u32;
            out.push('\\');
            out.push('u');
            out.push('0');
            out.push('0');
            out.push(hex_char(v / 16));
            out.push(hex_char(v % 16));
        } else {
            out.push(c);
        }
        proof {
            assert(out@ =~= old(out)@ + spec_escape(s@.take(i as int + 1)));
        }
        i += 1;
    }
    proof {
        assert(s@.take(len as int) =~= s@);
    }
}

/// The escaped form grows at the back one character at a time.
proof fn lemma_escape_snoc(s: Seq<char>)
    requires
        s.len() >= 1,
    ensures
        spec_escape(s) == spec_escape(s.drop_last()) + spec_escape_char(s.last()),
    decreases s.len(),
{
    if s.len() == 1 {
        assert(s.skip(1) =~= Seq::<char>::empty());
        assert(s.drop_last() =~= Seq::<char>::empty());
        assert(spec_escape(s) =~= spec_escape(s.drop_last()) + spec_escape_char(s.last()));
    } else {
        lemma_escape_snoc(s.skip(1));
        assert(s.skip(1).drop_last() =~= s.drop_last().skip(1));
        assert(s.skip(1).last() == s.last());
        assert(s.drop_last()[0] == s[0]);
        assert(spec_escape(s) =~= spec_escape(s.drop_last()) + spec_escape_char(s.last()));
    }
}

/// Appends the stored form of a timestamp to `out`.
#[verifier::rlimit(50)]
fn push_rfc3339(out: &mut Vec<char>, t: &Timestamp)
    requires
        t.wf(),
    ensures
        final(out)@ == old(out)@ + spec_rfc3339(*t),
{
    push_dec4(out, t.year as u32);
    out.push('-');
    push_dec2(out, t.month as u32);
    out.push('-');
    push_dec2(out, t.day as u32);
    out.push('T');
    push_dec2(out, t.hour as u32);
    out.push(':');
    push_dec2(out, t.minute as u32);
    out.push(':');
    push_dec2(out, t.second as u32);
    let a: u32 = if t.offset_min < 0 {
        (-(t.offset_min as i32)) as u32
    } else {
        t.offset_min as u32
    };
    if t.offset_min < 0 {
        out.push('-');
    } else {
        out.push('+');
    }
    push_dec2(out, a / 60);
    out.push(':');
    push_dec2(out, a % 60);
    proof {
        assert(final(out)@ =~= old(out)@ + spec_rfc3339(*t));
    }
}

/// Whether both timestamps of every stored task fit the stored form; true
/// of everything this library builds or reads back.
pub fn dates_wf(tasks: &TaskList) -> (r: bool)
    ensures
        r == spec_dates_wf(spec_tasks_of(tasks.list@)),
{
    let mut i: usize = 0;
    while i < tasks.list.len()
        invariant
            i <= tasks.list@.len(),
            forall|j: int|
                0 <= j < i ==> (#[trigger] spec_tasks_of(tasks.list@)[j]).create_at.wf()
                    && spec_tasks_of(tasks.list@)[j].update_at.wf(),
        decreases tasks.list@.len() - i,
    {
        let t = &tasks.list[i];
        proof {
            assert(spec_tasks_of(tasks.list@)[i as int] == spec_task_of(tasks.list@[i as int]));
        }
        if !(t.create_at.is_wf() && t.update_at.is_wf()) {
            return false;
        }
        i += 1;
    }
    true
}

/// Appends one rendered task item to `out`.
#[verifier::rlimit(100)]
fn push_task(out: &mut Vec<char>, t: &Task)
    requires
        t.create_at.wf(),
        t.update_at.wf(),
    ensures
        final(out)@ == old(out)@ + spec_render_task(spec_task_of(*t)),
{
    let ghost before = out@;
    push_str(out, "    {\n      \"id\": ");
    let ghost mut r: Seq<char> = "    {\n      \"id\": "@;
    assert(out@ == before + r);
    push_int_digits(out, t.id);
    proof {
        lemma_add_assoc(before, r, spec_int_digits(t.id as int));
        r = r + spec_int_digits(t.id as int);
    }
    push_str(out, ",\n      \"desc\": \"");
    proof {
        lemma_add_assoc(before, r, ",\n      \"desc\": \""@);
        r = r + ",\n      \"desc\": \""@;
    }
    push_escaped(out, t.desc.as_str());
    proof {
        lemma_add_assoc(before, r, spec_escape(t.desc@));
        r = r + spec_escape(t.desc@);
    }
    push_str(out, "\",\n      \"status\": \"");
    proof {
        lemma_add_assoc(before, r, "\",\n      \"status\": \""@);
        r = r + "\",\n      \"status\": \""@;
    }
    match t.status {
        Status::Todo => push_str(out, "Todo"),
        Status::Progress => push_str(out, "Progress"),
        Status::Done => push_str(out, "Done"),
    }
    proof {
        lemma_add_assoc(before, r, spec_status_name(t.status));
        r = r + spec_status_name(t.status);
        assert(out@ == before + r);
    }
    push_str(out, "\",\n      \"create_at\": \"");
    proof {
        lemma_add_assoc(before, r, "\",\n      \"create_at\": \""@);
        r = r + "\",\n      \"create_at\": \""@;
    }
    push_rfc3339(out, &t.create_at);
    proof {
        lemma_add_assoc(before, r, spec_rfc3339(t.create_at));
        r = r + spec_rfc3339(t.create_at);
    }
    push_str(out, "\",\n      \"update_at\": \"");
    proof {
        lemma_add_assoc(before, r, "\",\n      \"update_at\": \""@);
        r = r + "\",\n      \"update_at\": \""@;
    }
    push_rfc3339(out, &t.update_at);
    proof {
        lemma_add_assoc(before, r, spec_rfc3339(t.update_at));
        r = r + spec_rfc3339(t.update_at);
    }
    push_str(out, "\"\n    }");
    proof {
        lemma_add_assoc(before, r, "\"\n    }"@);
        r = r + "\"\n    }"@;
        assert(out@ == before + r);
        assert(r == spec_render_task(spec_task_of(*t)));
    }
}

/// Renders the store as the stored document.
#[verifier::rlimit(100)]
pub fn serialize(tasks: &TaskList) -> (r: String)
    requires
        spec_dates_wf(spec_tasks_of(tasks.list@)),
    ensures
        r@ == spec_render(spec_tasks_of(tasks.list@)),
{
    let ghost shadow = spec_tasks_of(tasks.list@);
    let mut out: Vec<char> = Vec::new();
    push_str(&mut out, "{\n  \"list\": ");
    proof {
        assert(out@ =~= "{\n  \"list\": "@);
    }
    if tasks.list.len() == 0 {
        push_str(&mut out, "[]\n}");
        return chars_to_string(&out);
    }
    push_str(&mut out, "[\n");
    let ghost head = out@;
    let mut i: usize = 0;
    while i < tasks.list.len()
        invariant
            i <= tasks.list@.len(),
            tasks.list@.len() > 0,
            shadow == spec_tasks_of(tasks.list@),
            spec_dates_wf(shadow),
            head == "{\n  \"list\": "@ + "[\n"@,
            out@ == if i == 0 {
                head
            } else {
                head + spec_render_items(shadow.take(i as int))
            },
        decreases tasks.list@.len() - i,
    {
        let ghost items = spec_render_items(shadow.take(i as int));
        if i > 0 {
            push_str(&mut out, ",\n");
        }
        let ghost before = out@;
        let t = &tasks.list[i];
        proof {
            assert(spec_task_of(tasks.list@[i as int]) == shadow[i as int]);
        }
        push_task(&mut out, t);
        proof {
            let k = i as int + 1;
            let task_r = spec_render_task(shadow[i as int]);
            if i == 0 {
                assert(shadow.take(1)[0] == shadow[0]);
                assert(spec_render_items(shadow.take(1)) == task_r);
                assert(out@ == head + spec_render_items(shadow.take(1)));
            } else {
                lemma_render_items_snoc(shadow.take(k));
                assert(shadow.take(k).drop_last() =~= shadow.take(i as int));
                assert(shadow.take(k).last() == shadow[i as int]);
                lemma_add_assoc(head, items, ",\n"@);
                lemma_add_assoc(head, items + ",\n"@, task_r);
                assert(out@ == head + spec_render_items(shadow.take(k)));
            }
        }
        i += 1;
    }
    push_str(&mut out, "\n  ]\n}");
    proof {
        assert(shadow.take(shadow.len() as int) =~= shadow);
        let items = spec_render_items(shadow);
        lemma_add_assoc("{\n  \"list\": "@, "[\n"@, items);
        lemma_add_assoc("{\n  \"list\": "@, "[\n"@ + items, "\n  ]\n}"@);
        assert(out@ == spec_render(shadow));
    }
    chars_to_string(&out)
}

/// `lit` opens `s`.
pub open spec fn spec_expect(s: Seq<char>, lit: Seq<char>) -> bool {
    lit.len() <= s.len() && s.take(lit.len() as int) == lit
}

/// Splitting a known concatenation: the left part opens it and skipping
/// the left part leaves the right part.
proof fn lemma_split(s: Seq<char>, a: Seq<char>, b: Seq<char>)
    requires
        s == a + b,
    ensures
        spec_expect(s, a),
        s.skip(a.len() as int) == b,
{
    assert(s.take(a.len() as int) =~= a);
    assert(s.skip(a.len() as int) =~= b);
}

/// Consumes `lit` at `pos`, or says that it is not there.
fn eat(chars: &Vec<char>, pos: usize, lit: &str) -> (r: Option<usize>)
    requires
        pos <= chars@.len(),
    ensures
        r matches Some(p) ==> pos <= p <= chars@.len() && p as int == pos + lit@.len()
            && spec_expect(chars@.skip(pos as int), lit@),
        r is None ==> !spec_expect(chars@.skip(pos as int), lit@),
{
    let n = lit.unicode_len();
    if n > chars.len() - pos {
        return None;
    }
    let mut j: usize = 0;
    while j < n
        invariant
            j <= n,
            pos + n <= chars@.len(),
            chars@.len() <= usize::MAX,
            n == lit@.len(),
            forall|k: int| 0 <= k < j ==> chars@[pos + k] == lit@[k],
        decreases n - j,
    {
        if chars[pos + j] != lit.get_char(j) {
            proof {
                let su = chars@.skip(pos as int);
                assert(su.take(n as int)[j as int] == chars@[pos + j]);
            }
            return None;
        }
        j += 1;
    }
    proof {
        assert(chars@.skip(pos as int).take(n as int) =~= lit@);
    }
    Some(pos + n)
}

/// Reads a signed decimal id at `pos`, exactly as the stored form has it.
#[verifier::rlimit(100)]
fn scan_int(chars: &Vec<char>, pos: usize) -> (r: Option<(i32, usize)>)
    requires
        pos <= chars@.len(),
    ensures
        ({
            let sp = spec_parse_int(chars@.skip(pos as int));
            match r {
                Some((v, p)) => pos <= p <= chars@.len() && sp == Some((v, p - pos)),
                None => sp is None,
            }
        }),
{
    let len = chars.len();
    let mut p = pos;
    let mut neg = false;
    if p < len && chars[p] == '-' {
        neg = true;
        p = p + 1;
    }
    let start = p;
    let ghost t = chars@.skip(start as int);
    proof {
        if neg {
            assert(chars@.skip(pos as int).skip(1) =~= t);
        }
    }
    let mut acc: u64 = 0;
    let mut done = false;
    while p < len && !done
        invariant
            pos <= start <= p <= len,
            len == chars@.len(),
            neg ==> pos < len && chars@[pos as int] == '-' && start == pos + 1,
            !neg ==> start == pos && (pos == len || chars@[pos as int] != '-'),
            t == chars@.skip(start as int),
            forall|j: int| start <= j < p ==> spec_is_digit(#[trigger] chars@[j]),
            acc as int == spec_digits_val(t.take(p - start)),
            acc <= 0x8000_0000,
            done ==> p < len && !spec_is_digit(chars@[p as int]),
        decreases len - p + (if done { 0int } else { 1int }),
    {
        let c = chars[p];
        let d = digit_val(c);
        if d < 0 {
            done = true;
        } else {
            proof {
                let q = t.take(p + 1 - start);
                assert(q.drop_last() =~= t.take(p - start));
                assert(q.last() == chars@[p as int]);
            }
            acc = acc * 10 + (d as u64);
            p = p + 1;
            if acc > 0x8000_0000 {
                proof {
                    lemma_scan_int_overflow(chars@, pos as int, start as int, p as int, neg, acc as int);
                }
                return None;
            }
        }
    }
    proof {
        lemma_digit_run_bounds(chars@.skip(p as int));
        if p < len {
            assert(chars@.skip(p as int)[0] == chars@[p as int]);
        }
        assert(spec_digit_run(chars@.skip(p as int)) == 0);
        lemma_run_of_scanned(chars@, start as int, p as int);
    }
    if p == start {
        return None;
    }
    if chars[start] == '0' && p - start > 1 {
        proof {
            assert(t[0] == chars@[start as int]);
        }
        return None;
    }
    if neg {
        if acc == 0 {
            return None;
        }
        Some(((-(acc as i64)) as i32, p))
    } else {
        if acc > 0x7fff_ffff {
            return None;
        }
        Some((acc as i32, p))
    }
}

/// A digit run scanned to a non-digit (or the end) is the whole run.
proof fn lemma_run_of_scanned(s: Seq<char>, start: int, p: int)
    requires
        0 <= start <= p <= s.len(),
        forall|j: int| start <= j < p ==> spec_is_digit(#[trigger] s[j]),
        spec_digit_run(s.skip(p)) == 0,
    ensures
        spec_digit_run(s.skip(start)) == p - start,
    decreases p - start,
{
    if p == start {
    } else {
        assert(s.skip(start)[0] == s[start]);
        assert(s.skip(start).skip(1) =~= s.skip(start + 1));
        lemma_run_of_scanned(s, start + 1, p);
    }
}

/// A partial digit scan whose value already exceeds the 32-bit range
/// means the whole token is rejected.
proof fn lemma_scan_int_overflow(s: Seq<char>, pos: int, start: int, p: int, neg: bool, acc: int)
    requires
        0 <= pos <= start <= p <= s.len(),
        neg ==> pos < s.len() && s[pos] == '-' && start == pos + 1,
        !neg ==> start == pos && (pos == s.len() || s[pos] != '-'),
        forall|j: int| start <= j < p ==> spec_is_digit(#[trigger] s[j]),
        acc == spec_digits_val(s.skip(start).take(p - start)),
        acc > 0x8000_0000,
    ensures
        spec_parse_int(s.skip(pos)) is None,
{
    let t = s.skip(start);
    if neg {
        assert(s.skip(pos)[0] == '-');
        assert(s.skip(pos).skip(1) =~= t);
    }
    lemma_digit_run_bounds(t);
    let k = spec_digit_run(t);
    if k == 0 {
    } else {
        assert forall|j: int| 0 <= j < k implies spec_is_digit(#[trigger] t.take(k)[j]) by {
            assert(t.take(k)[j] == t[j]);
        }
        assert(spec_all_digits(t.take(k)));
        if p - start <= k {
            crate::command::lemma_digits_val_prefix(t.take(k), p - start);
            assert(t.take(k).take(p - start) =~= t.take(p - start));
        } else {
            assert(spec_is_digit(t[k]));
        }
    }
}

/// Reads a quoted description body at `pos`, undoing the escapes; the
/// returned position is just past the closing quote.
#[verifier::rlimit(100)]
fn scan_string(chars: &Vec<char>, pos: usize) -> (r: Option<(Vec<char>, usize)>)
    requires
        pos <= chars@.len(),
    ensures
        ({
            let sp = spec_parse_string(chars@.skip(pos as int));
            match r {
                Some((v, p)) => pos <= p <= chars@.len() && sp == Some((v@, (p - pos) as int)),
                None => sp is None,
            }
        }),
{
    let len = chars.len();
    let mut out: Vec<char> = Vec::new();
    let mut p = pos;
    loop
        invariant
            pos <= p <= len,
            len == chars@.len(),
            spec_parse_string(chars@.skip(pos as int)) == (match spec_parse_string(
                chars@.skip(p as int),
            ) {
                None => None::<(Seq<char>, int)>,
                Some((res, m)) => Some((out@ + res, (p - pos) + m)),
            }),
        decreases len - p,
    {
        if p >= len {
            proof {
                assert(chars@.skip(p as int).len() == 0);
            }
            return None;
        }
        let c = chars[p];
        proof {
            assert(chars@.skip(p as int)[0] == c);
        }
        if c == '"' {
            proof {
                assert(out@ + Seq::<char>::empty() =~= out@);
            }
            return Some((out, p + 1));
        } else if c == '\\' {
            if p + 1 >= len {
                proof {
                    assert(chars@.skip(p as int).len() == 1);
                }
                return None;
            }
            let c2 = chars[p + 1];
            proof {
                assert(chars@.skip(p as int)[1] == c2);
            }
            if c2 == '"' || c2 == '\\' {
                let ghost out0 = out@;
                proof {
                    assert(chars@.skip(p as int).skip(2) =~= chars@.skip(p as int + 2));
                    let m0 = spec_parse_string(chars@.skip(p as int + 2));
                    match m0 {
                        None => {},
                        Some((res, m)) => {
                            assert(out0 + (seq![c2] + res) =~= (out0 + seq![c2]) + res);
                        },
                    }
                }
                out.push(c2);
                proof {
                    assert(out@ =~= out0 + seq![c2]);
                }
                p = p + 2;
            } else if c2 == 'u' && len - p >= 6 && chars[p + 2] == '0' && chars[p + 3] == '0' {
                proof {
                    assert(chars@.skip(p as int)[2] == chars@[p + 2]);
                    assert(chars@.skip(p as int)[3] == chars@[p + 3]);
                    assert(chars@.skip(p as int)[4] == chars@[p + 4]);
                    assert(chars@.skip(p as int)[5] == chars@[p + 5]);
                }
                let h1 = hex_val(chars[p + 4]);
                let h2 = hex_val(chars[p + 5]);
                if h1 < 0 || h2 < 0 || h1 * 16 + h2 >= 0x20 {
                    return None;
                }
                let d = control_char((h1 * 16 + h2) as u32);
                let ghost out0 = out@;
                proof {
                    assert(chars@.skip(p as int).skip(6) =~= chars@.skip(p as int + 6));
                    let m0 = spec_parse_string(chars@.skip(p as int + 6));
                    match m0 {
                        None => {},
                        Some((res, m)) => {
                            assert(out0 + (seq![d] + res) =~= (out0 + seq![d]) + res);
                        },
                    }
                }
                out.push(d);
                proof {
                    assert(out@ =~= out0 + seq![d]);
                }
                p = p + 6;
            } else {
                proof {
                    if chars@.skip(p as int).len() >= 6 {
                        assert(chars@.skip(p as int)[2] == chars@[p + 2]);
                        assert(chars@.skip(p as int)[3] == chars@[p + 3]);
                    }
                }
                return None;
            }
        } else {
            let ghost out0 = out@;
            proof {
                assert(chars@.skip(p as int).skip(1) =~= chars@.skip(p as int + 1));
                let m0 = spec_parse_string(chars@.skip(p as int + 1));
                match m0 {
                    None => {},
                    Some((res, m)) => {
                        assert(out0 + (seq![c] + res) =~= (out0 + seq![c]) + res);
                    },
                }
            }
            out.push(c);
            proof {
                assert(out@ =~= out0 + seq![c]);
            }
            p = p + 1;
        }
    }
}

/// Reads a 25-character timestamp at `pos`, exactly as the stored form
/// has it.
#[verifier::rlimit(100)]
fn scan_ts(chars: &Vec<char>, pos: usize) -> (r: Option<(Timestamp, usize)>)
    requires
        pos <= chars@.len(),
    ensures
        ({
            let sp = spec_parse_ts(chars@.skip(pos as int));
            match r {
                Some((t, p)) => sp == Some(t) && p as int == pos + 25 && p <= chars@.len(),
                None => sp is None,
            }
        }),
{
    let len = chars.len();
    let ghost su = chars@.skip(pos as int);
    if len - pos < 25 {
        return None;
    }
    proof {
        assert forall|k: int| 0 <= k < 25 implies #[trigger] su[k] == chars@[pos + k] by {}
    }
    let a0 = digit_val(chars[pos]);
    let a1 = digit_val(chars[pos + 1]);
    let a2 = digit_val(chars[pos + 2]);
    let a3 = digit_val(chars[pos + 3]);
    let a5 = digit_val(chars[pos + 5]);
    let a6 = digit_val(chars[pos + 6]);
    let a8 = digit_val(chars[pos + 8]);
    let a9 = digit_val(chars[pos + 9]);
    let a11 = digit_val(chars[pos + 11]);
    let a12 = digit_val(chars[pos + 12]);
    let a14 = digit_val(chars[pos + 14]);
    let a15 = digit_val(chars[pos + 15]);
    let a17 = digit_val(chars[pos + 17]);
    let a18 = digit_val(chars[pos + 18]);
    let a20 = digit_val(chars[pos + 20]);
    let a21 = digit_val(chars[pos + 21]);
    let a23 = digit_val(chars[pos + 23]);
    let a24 = digit_val(chars[pos + 24]);
    let digits_ok = a0 >= 0 && a1 >= 0 && a2 >= 0 && a3 >= 0 && a5 >= 0 && a6 >= 0 && a8 >= 0
        && a9 >= 0 && a11 >= 0 && a12 >= 0 && a14 >= 0 && a15 >= 0 && a17 >= 0 && a18 >= 0 && a20
        >= 0 && a21 >= 0 && a23 >= 0 && a24 >= 0;
    let punct_ok = chars[pos + 4] == '-' && chars[pos + 7] == '-' && chars[pos + 10] == 'T'
        && chars[pos + 13] == ':' && chars[pos + 16] == ':' && chars[pos + 22] == ':';
    let sign = chars[pos + 19];
    if !digits_ok || !punct_ok || (sign != '+' && sign != '-') {
        return None;
    }
    let year: i32 = a0 * 1000 + a1 * 100 + a2 * 10 + a3;
    let month: i32 = a5 * 10 + a6;
    let day: i32 = a8 * 10 + a9;
    let hour: i32 = a11 * 10 + a12;
    let minute: i32 = a14 * 10 + a15;
    let second: i32 = a17 * 10 + a18;
    let oh: i32 = a20 * 10 + a21;
    let om: i32 = a23 * 10 + a24;
    let a: i32 = oh * 60 + om;
    if !(1 <= month && month <= 12 && 1 <= day && day <= 31 && hour <= 23 && minute <= 59
        && second <= 59 && oh <= 23 && om <= 59) {
        return None;
    }
    if sign == '-' && a == 0 {
        return None;
    }
    let offset_min: i16 = if sign == '-' {
        (-a) as i16
    } else {
        a as i16
    };
    let t = Timestamp {
        year: year as u16,
        month: month as u8,
        day: day as u8,
        hour: hour as u8,
        minute: minute as u8,
        second: second as u8,
        offset_min,
    };
    Some((t, pos + 25))
}

/// Suffixes split at absolute positions.
proof fn lemma_split_at(s: Seq<char>, q: int, a: Seq<char>, b: Seq<char>)
    requires
        0 <= q <= s.len(),
        s.skip(q) == a + b,
    ensures
        spec_expect(s.skip(q), a),
        q + a.len() <= s.len(),
        s.skip(q + a.len() as int) == b,
{
    assert(s.skip(q).take(a.len() as int) =~= a);
    assert(s.skip(q).skip(a.len() as int) =~= s.skip(q + a.len() as int));
    assert(s.skip(q).skip(a.len() as int) =~= b);
}

/// A rendered task followed by anything regroups into its pieces, each
/// prefixed to what follows it.
#[verifier::rlimit(100)]
proof fn lemma_render_task_assoc(t: SpecTask, rest: Seq<char>)
    ensures
        spec_render_task(t) + rest == "    {\n      \"id\": "@ + (spec_int_digits(t.id as int)
            + (",\n      \"desc\": \""@ + (spec_escape(t.desc) + ("\",\n      \"status\": \""@
            + (spec_status_name(t.status) + ("\",\n      \"create_at\": \""@ + (spec_rfc3339(
            t.create_at,
        ) + ("\",\n      \"update_at\": \""@ + (spec_rfc3339(t.update_at) + ("\"\n    }"@
            + rest)))))))))),
{
    let p1 = "    {\n      \"id\": "@;
    let p2 = spec_int_digits(t.id as int);
    let p3 = ",\n      \"desc\": \""@;
    let p4 = spec_escape(t.desc);
    let p5 = "\",\n      \"status\": \""@;
    let p6 = spec_status_name(t.status);
    let p7 = "\",\n      \"create_at\": \""@;
    let p8 = spec_rfc3339(t.create_at);
    let p9 = "\",\n      \"update_at\": \""@;
    let p10 = spec_rfc3339(t.update_at);
    let p11 = "\"\n    }"@;
    lemma_add_assoc(p1 + p2 + p3 + p4 + p5 + p6 + p7 + p8 + p9 + p10, p11, rest);
    lemma_add_assoc(p1 + p2 + p3 + p4 + p5 + p6 + p7 + p8 + p9, p10, p11 + rest);
    lemma_add_assoc(p1 + p2 + p3 + p4 + p5 + p6 + p7 + p8, p9, p10 + (p11 + rest));
    lemma_add_assoc(p1 + p2 + p3 + p4 + p5 + p6 + p7, p8, p9 + (p10 + (p11 + rest)));
    lemma_add_assoc(p1 + p2 + p3 + p4 + p5 + p6, p7, p8 + (p9 + (p10 + (p11 + rest))));
    lemma_add_assoc(p1 + p2 + p3 + p4 + p5, p6, p7 + (p8 + (p9 + (p10 + (p11 + rest)))));
    lemma_add_assoc(p1 + p2 + p3 + p4, p5, p6 + (p7 + (p8 + (p9 + (p10 + (p11 + rest))))));
    lemma_add_assoc(p1 + p2 + p3, p4, p5 + (p6 + (p7 + (p8 + (p9 + (p10 + (p11 + rest)))))));
    lemma_add_assoc(p1 + p2, p3, p4 + (p5 + (p6 + (p7 + (p8 + (p9 + (p10 + (p11 + rest))))))));
    lemma_add_assoc(p1, p2, p3 + (p4 + (p5 + (p6 + (p7 + (p8 + (p9 + (p10 + (p11 + rest)))))))));
}

/// The status-field literal is a closing quote followed by the literal the
/// reader expects after a description.
proof fn lemma_quote_split()
    ensures
        "\",\n      \"status\": \""@ == seq!['"'] + ",\n      \"status\": \""@,
{
    reveal_strlit("\",\n      \"status\": \"");
    reveal_strlit(",\n      \"status\": \"");
    assert("\",\n      \"status\": \""@ =~= seq!['"'] + ",\n      \"status\": \""@);
}

/// The literal after the id begins with a comma, not a digit.
proof fn lemma_desc_lit_first()
    ensures
        ",\n      \"desc\": \""@.len() > 0,
        ",\n      \"desc\": \""@[0] == ',',
        !spec_is_digit(','),
{
    reveal_strlit(",\n      \"desc\": \"");
}

/// Where a rendered task opens the suffix at `pos`, each reading step up
/// to the status field meets what was rendered.
#[verifier::rlimit(100)]
proof fn lemma_render_task_steps_head(s: Seq<char>, pos: int, st: SpecTask, rest: Seq<char>)
    requires
        0 <= pos <= s.len(),
        st.create_at.wf(),
        st.update_at.wf(),
        s.skip(pos) == spec_render_task(st) + rest,
    ensures
        ({
            let q1 = pos + "    {\n      \"id\": "@.len();
            let q2 = q1 + spec_int_digits(st.id as int).len();
            let q3 = q2 + ",\n      \"desc\": \""@.len();
            let q4 = q3 + spec_escape(st.desc).len() + 1;
            let q5 = q4 + ",\n      \"status\": \""@.len();
            &&& spec_expect(s.skip(pos), "    {\n      \"id\": "@)
            &&& spec_parse_int(s.skip(q1)) == Some(
                (st.id, spec_int_digits(st.id as int).len() as int),
            )
            &&& spec_expect(s.skip(q2), ",\n      \"desc\": \""@)
            &&& spec_parse_string(s.skip(q3)) == Some(
                (st.desc, spec_escape(st.desc).len() as int + 1),
            )
            &&& spec_expect(s.skip(q4), ",\n      \"status\": \""@)
            &&& q5 <= s.len()
            &&& s.skip(q5) == spec_status_name(st.status) + ("\",\n      \"create_at\": \""@
                + (spec_rfc3339(st.create_at) + ("\",\n      \"update_at\": \""@ + (spec_rfc3339(
                st.update_at,
            ) + ("\"\n    }"@ + rest)))))
            &&& pos + spec_render_task(st).len() == q5 + spec_status_name(st.status).len()
                + "\",\n      \"create_at\": \""@.len() + 25 + "\",\n      \"update_at\": \""@.len()
                + 25 + "\"\n    }"@.len()
        }),
{
    let p1 = "    {\n      \"id\": "@;
    let p2 = spec_int_digits(st.id as int);
    let p3 = ",\n      \"desc\": \""@;
    let p4 = spec_escape(st.desc);
    let p5 = "\",\n      \"status\": \""@;
    let p5tail = ",\n      \"status\": \""@;
    let p6 = spec_status_name(st.status);
    let p7 = "\",\n      \"create_at\": \""@;
    let p8 = spec_rfc3339(st.create_at);
    let p9 = "\",\n      \"update_at\": \""@;
    let p10 = spec_rfc3339(st.update_at);
    let p11 = "\"\n    }"@;
    let t11 = p11 + rest;
    let t10 = p10 + t11;
    let t9 = p9 + t10;
    let t8 = p8 + t9;
    let t7 = p7 + t8;
    let t6 = p6 + t7;
    let t5 = p5 + t6;
    let t4 = p4 + t5;
    let t3 = p3 + t4;
    let t2 = p2 + t3;
    lemma_render_task_assoc(st, rest);
    assert(s.skip(pos) == p1 + t2);
    lemma_split_at(s, pos, p1, t2);
    let q1 = pos + p1.len();
    lemma_desc_lit_first();
    assert(t3.len() > 0 && t3[0] == p3[0]);
    lemma_parse_int_render(st.id, t3);
    assert(spec_parse_int(s.skip(q1)) == Some((st.id, p2.len() as int)));
    lemma_split_at(s, q1, p2, t3);
    let q2 = q1 + p2.len();
    lemma_split_at(s, q2, p3, t4);
    let q3 = q2 + p3.len();
    lemma_quote_split();
    lemma_add_assoc(seq!['"'], p5tail, t6);
    assert(t5 == seq!['"'] + (p5tail + t6));
    lemma_add_assoc(p4, seq!['"'], p5tail + t6);
    assert(s.skip(q3) == p4 + seq!['"'] + (p5tail + t6));
    lemma_parse_string_escape(st.desc, p5tail + t6);
    assert(spec_parse_string(s.skip(q3)) == Some((st.desc, p4.len() as int + 1)));
    lemma_split_at(s, q3, p4 + seq!['"'], p5tail + t6);
    assert((p4 + seq!['"']).len() == p4.len() + 1);
    let q4 = q3 + p4.len() + 1;
    lemma_split_at(s, q4, p5tail, t6);
    let q5 = q4 + p5tail.len();
    assert(s.skip(q5) == t6);
    assert(spec_render_task(st).len() == p1.len() + p2.len() + p3.len() + p4.len() + p5.len()
        + p6.len() + p7.len() + p8.len() + p9.len() + p10.len() + p11.len());
    assert(p5.len() == 1 + p5tail.len());
    assert(p8.len() == 25) by {
        lemma_parse_ts_render(st.create_at, t9);
    }
    assert(p10.len() == 25) by {
        lemma_parse_ts_render(st.update_at, t11);
    }
}

/// From the status field on, each reading step meets what was rendered.
#[verifier::rlimit(100)]
proof fn lemma_render_task_steps_back(s: Seq<char>, q5: int, st: SpecTask, rest: Seq<char>)
    requires
        0 <= q5 <= s.len(),
        st.create_at.wf(),
        st.update_at.wf(),
        s.skip(q5) == spec_status_name(st.status) + ("\",\n      \"create_at\": \""@
            + (spec_rfc3339(st.create_at) + ("\",\n      \"update_at\": \""@ + (spec_rfc3339(
            st.update_at,
        ) + ("\"\n    }"@ + rest))))),
    ensures
        ({
            let q6 = q5 + spec_status_name(st.status).len();
            let q7 = q6 + "\",\n      \"create_at\": \""@.len();
            let q8 = q7 + 25;
            let q9 = q8 + "\",\n      \"update_at\": \""@.len();
            let q10 = q9 + 25;
            &&& (st.status == Status::Todo ==> spec_expect(s.skip(q5), "Todo"@))
            &&& (st.status == Status::Progress ==> !spec_expect(s.skip(q5), "Todo"@)
                && spec_expect(s.skip(q5), "Progress"@))
            &&& (st.status == Status::Done ==> !spec_expect(s.skip(q5), "Todo"@) && !spec_expect(
                s.skip(q5),
                "Progress"@,
            ) && spec_expect(s.skip(q5), "Done"@))
            &&& (st.status != Status::Todo ==> !spec_expect(s.skip(q5), "Todo"@))
            &&& (st.status != Status::Progress ==> !spec_expect(s.skip(q5), "Progress"@))
            &&& spec_expect(s.skip(q6), "\",\n      \"create_at\": \""@)
            &&& spec_parse_ts(s.skip(q7)) == Some(st.create_at)
            &&& spec_expect(s.skip(q8), "\",\n      \"update_at\": \""@)
            &&& spec_parse_ts(s.skip(q9)) == Some(st.update_at)
            &&& spec_expect(s.skip(q10), "\"\n    }"@)
        }),
{
    let p6 = spec_status_name(st.status);
    let p7 = "\",\n      \"create_at\": \""@;
    let p8 = spec_rfc3339(st.create_at);
    let p9 = "\",\n      \"update_at\": \""@;
    let p10 = spec_rfc3339(st.update_at);
    let p11 = "\"\n    }"@;
    let t11 = p11 + rest;
    let t10 = p10 + t11;
    let t9 = p9 + t10;
    let t8 = p8 + t9;
    let t7 = p7 + t8;
    reveal_strlit("Todo");
    reveal_strlit("Progress");
    reveal_strlit("Done");
    lemma_split_at(s, q5, p6, t7);
    let s5 = s.skip(q5);
    assert(s5[0] == p6[0]);
    match st.status {
        Status::Todo => {
            assert(spec_expect(s5, "Todo"@));
        },
        Status::Progress => {
            assert(p6[0] == 'P');
            assert(!spec_expect(s5, "Todo"@)) by {
                if spec_expect(s5, "Todo"@) {
                    assert(s5.take("Todo"@.len() as int)[0] == s5[0]);
                    assert("Todo"@[0] == 'T');
                }
            }
            assert(spec_expect(s5, "Progress"@));
        },
        Status::Done => {
            assert(p6[0] == 'D');
            assert(!spec_expect(s5, "Todo"@)) by {
                if spec_expect(s5, "Todo"@) {
                    assert(s5.take("Todo"@.len() as int)[0] == s5[0]);
                    assert("Todo"@[0] == 'T');
                }
            }
            assert(!spec_expect(s5, "Progress"@)) by {
                if spec_expect(s5, "Progress"@) {
                    assert(s5.take("Progress"@.len() as int)[0] == s5[0]);
                    assert("Progress"@[0] == 'P');
                }
            }
            assert(spec_expect(s5, "Done"@));
        },
    }
    let q6 = q5 + p6.len();
    lemma_split_at(s, q6, p7, t8);
    let q7 = q6 + p7.len();
    lemma_parse_ts_render(st.create_at, t9);
    assert(p8.len() == 25);
    assert(spec_parse_ts(s.skip(q7)) == Some(st.create_at));
    lemma_split_at(s, q7, p8, t9);
    let q8 = q7 + 25;
    lemma_split_at(s, q8, p9, t10);
    let q9 = q8 + p9.len();
    lemma_parse_ts_render(st.update_at, t11);
    assert(p10.len() == 25);
    assert(spec_parse_ts(s.skip(q9)) == Some(st.update_at));
    lemma_split_at(s, q9, p10, t11);
    let q10 = q9 + 25;
    lemma_split_at(s, q10, p11, rest);
}

/// Reads the id and description of a task item at `pos`, through the
/// opening quote of the status field. Where the suffix at `pos` opens with
/// a rendered task, this succeeds and yields that task's id and
/// description.
#[verifier::rlimit(100)]
#[verifier::spinoff_prover]
fn scan_task_head(chars: &Vec<char>, pos: usize) -> (r: Option<(i32, Vec<char>, usize)>)
    requires
        pos <= chars@.len(),
    ensures
        r matches Some(x) ==> pos <= x.2 <= chars@.len(),
        forall|st: SpecTask, rest: Seq<char>|
            #![trigger spec_render_task(st) + rest]
            st.create_at.wf() && st.update_at.wf() && chars@.skip(pos as int) == spec_render_task(
                st,
            ) + rest ==> (r matches Some(x) && x.0 == st.id && x.1@ == st.desc && x.2 as int == pos
                + "    {\n      \"id\": "@.len() + spec_int_digits(st.id as int).len()
                + ",\n      \"desc\": \""@.len() + spec_escape(st.desc).len() + 1
                + ",\n      \"status\": \""@.len() && chars@.skip(x.2 as int) == spec_status_name(
                st.status,
            ) + ("\",\n      \"create_at\": \""@ + (spec_rfc3339(st.create_at)
                + ("\",\n      \"update_at\": \""@ + (spec_rfc3339(st.update_at) + ("\"\n    }"@
                + rest))))) && pos + spec_render_task(st).len() == x.2 + spec_status_name(
                st.status,
            ).len() + "\",\n      \"create_at\": \""@.len() + 25
                + "\",\n      \"update_at\": \""@.len() + 25 + "\"\n    }"@.len()),
{
    let p1 = match eat(chars, pos, "    {\n      \"id\": ") {
        Some(p) => p,
        None => {
            proof {
                assert forall|st: SpecTask, rest: Seq<char>|
                    #![trigger spec_render_task(st) + rest]
                    st.create_at.wf() && st.update_at.wf() && chars@.skip(pos as int)
                        == spec_render_task(st) + rest implies false by {
                    lemma_render_task_steps_head(chars@, pos as int, st, rest);
                }
            }
            return None;
        },
    };
    let (id, p2) = match scan_int(chars, p1) {
        Some(v) => v,
        None => {
            proof {
                assert forall|st: SpecTask, rest: Seq<char>|
                    #![trigger spec_render_task(st) + rest]
                    st.create_at.wf() && st.update_at.wf() && chars@.skip(pos as int)
                        == spec_render_task(st) + rest implies false by {
                    lemma_render_task_steps_head(chars@, pos as int, st, rest);
                }
            }
            return None;
        },
    };
    let p3 = match eat(chars, p2, ",\n      \"desc\": \"") {
        Some(p) => p,
        None => {
            proof {
                assert forall|st: SpecTask, rest: Seq<char>|
                    #![trigger spec_render_task(st) + rest]
                    st.create_at.wf() && st.update_at.wf() && chars@.skip(pos as int)
                        == spec_render_task(st) + rest implies false by {
                    lemma_render_task_steps_head(chars@, pos as int, st, rest);
                }
            }
            return None;
        },
    };
    let (desc_chars, p4) = match scan_string(chars, p3) {
        Some(v) => v,
        None => {
            proof {
                assert forall|st: SpecTask, rest: Seq<char>|
                    #![trigger spec_render_task(st) + rest]
                    st.create_at.wf() && st.update_at.wf() && chars@.skip(pos as int)
                        == spec_render_task(st) + rest implies false by {
                    lemma_render_task_steps_head(chars@, pos as int, st, rest);
                }
            }
            return None;
        },
    };
    let p5 = match eat(chars, p4, ",\n      \"status\": \"") {
        Some(p) => p,
        None => {
            proof {
                assert forall|st: SpecTask, rest: Seq<char>|
                    #![trigger spec_render_task(st) + rest]
                    st.create_at.wf() && st.update_at.wf() && chars@.skip(pos as int)
                        == spec_render_task(st) + rest implies false by {
                    lemma_render_task_steps_head(chars@, pos as int, st, rest);
                }
            }
            return None;
        },
    };
    proof {
        assert forall|st: SpecTask, rest: Seq<char>|
            #![trigger spec_render_task(st) + rest]
            st.create_at.wf() && st.update_at.wf() && chars@.skip(pos as int) == spec_render_task(
                st,
            ) + rest implies id == st.id && desc_chars@ == st.desc && p5 as int == pos
            + "    {\n      \"id\": "@.len() + spec_int_digits(st.id as int).len()
            + ",\n      \"desc\": \""@.len() + spec_escape(st.desc).len() + 1
            + ",\n      \"status\": \""@.len() && chars@.skip(p5 as int) == spec_status_name(
            st.status,
        ) + ("\",\n      \"create_at\": \""@ + (spec_rfc3339(st.create_at)
            + ("\",\n      \"update_at\": \""@ + (spec_rfc3339(st.update_at) + ("\"\n    }"@
            + rest))))) && pos + spec_render_task(st).len() == p5 + spec_status_name(
            st.status,
        ).len() + "\",\n      \"create_at\": \""@.len() + 25 + "\",\n      \"update_at\": \""@.len()
            + 25 + "\"\n    }"@.len() by {
            lemma_render_task_steps_head(chars@, pos as int, st, rest);
        }
    }
    Some((id, desc_chars, p5))
}

/// Reads one task item at `pos`. Where the suffix at `pos` opens with a
/// rendered task, reading succeeds and yields exactly that task.
#[verifier::rlimit(100)]
#[verifier::spinoff_prover]
fn scan_task(chars: &Vec<char>, pos: usize) -> (r: Option<(Task, usize)>)
    requires
        pos <= chars@.len(),
    ensures
        r matches Some((t, p)) ==> pos <= p <= chars@.len(),
        forall|st: SpecTask, rest: Seq<char>|
            #![trigger spec_render_task(st) + rest]
            st.create_at.wf() && st.update_at.wf() && chars@.skip(pos as int) == spec_render_task(
                st,
            ) + rest ==> (r matches Some((t, p)) && spec_task_of(t) == st && p as int == pos
                + spec_render_task(st).len()),
{
    let (id, desc_chars, p5) = match scan_task_head(chars, pos) {
        Some(v) => v,
        None => {
            return None;
        },
    };
    let (status, p6) = match eat(chars, p5, "Todo") {
        Some(p) => (Status::Todo, p),
        None => match eat(chars, p5, "Progress") {
            Some(p) => (Status::Progress, p),
            None => match eat(chars, p5, "Done") {
                Some(p) => (Status::Done, p),
                None => {
                    proof {
                        assert forall|st: SpecTask, rest: Seq<char>|
                            #![trigger spec_render_task(st) + rest]
                            st.create_at.wf() && st.update_at.wf() && chars@.skip(pos as int)
                                == spec_render_task(st) + rest implies false by {
                            lemma_render_task_steps_back(chars@, p5 as int, st, rest);
                        }
                    }
                    return None;
                },
            },
        },
    };
    let p7 = match eat(chars, p6, "\",\n      \"create_at\": \"") {
        Some(p) => p,
        None => {
            proof {
                assert forall|st: SpecTask, rest: Seq<char>|
                    #![trigger spec_render_task(st) + rest]
                    st.create_at.wf() && st.update_at.wf() && chars@.skip(pos as int)
                        == spec_render_task(st) + rest implies false by {
                    lemma_render_task_steps_back(chars@, p5 as int, st, rest);
                }
            }
            return None;
        },
    };
    let (create_at, p8) = match scan_ts(chars, p7) {
        Some(v) => v,
        None => {
            proof {
                assert forall|st: SpecTask, rest: Seq<char>|
                    #![trigger spec_render_task(st) + rest]
                    st.create_at.wf() && st.update_at.wf() && chars@.skip(pos as int)
                        == spec_render_task(st) + rest implies false by {
                    lemma_render_task_steps_back(chars@, p5 as int, st, rest);
                }
            }
            return None;
        },
    };
    let p9 = match eat(chars, p8, "\",\n      \"update_at\": \"") {
        Some(p) => p,
        None => {
            proof {
                assert forall|st: SpecTask, rest: Seq<char>|
                    #![trigger spec_render_task(st) + rest]
                    st.create_at.wf() && st.update_at.wf() && chars@.skip(pos as int)
                        == spec_render_task(st) + rest implies false by {
                    lemma_render_task_steps_back(chars@, p5 as int, st, rest);
                }
            }
            return None;
        },
    };
    let (update_at, p10) = match scan_ts(chars, p9) {
        Some(v) => v,
        None => {
            proof {
                assert forall|st: SpecTask, rest: Seq<char>|
                    #![trigger spec_render_task(st) + rest]
                    st.create_at.wf() && st.update_at.wf() && chars@.skip(pos as int)
                        == spec_render_task(st) + rest implies false by {
                    lemma_render_task_steps_back(chars@, p5 as int, st, rest);
                }
            }
            return None;
        },
    };
    let p11 = match eat(chars, p10, "\"\n    }") {
        Some(p) => p,
        None => {
            proof {
                assert forall|st: SpecTask, rest: Seq<char>|
                    #![trigger spec_render_task(st) + rest]
                    st.create_at.wf() && st.update_at.wf() && chars@.skip(pos as int)
                        == spec_render_task(st) + rest implies false by {
                    lemma_render_task_steps_back(chars@, p5 as int, st, rest);
                }
            }
            return None;
        },
    };
    let desc = chars_to_string(&desc_chars);
    let t = Task { id, desc, status, create_at, update_at };
    proof {
        assert forall|st: SpecTask, rest: Seq<char>|
            #![trigger spec_render_task(st) + rest]
            st.create_at.wf() && st.update_at.wf() && chars@.skip(pos as int) == spec_render_task(
                st,
            ) + rest implies spec_task_of(t) == st && p11 as int == pos + spec_render_task(
            st,
        ).len() by {
            lemma_render_task_steps_back(chars@, p5 as int, st, rest);
            assert(st == SpecTask {
                id: st.id,
                desc: st.desc,
                status: st.status,
                create_at: st.create_at,
                update_at: st.update_at,
            });
        }
    }
    Some((t, p11))
}

/// One rendered task opening a character sequence determines the task and
/// what follows it.
#[verifier::rlimit(100)]
#[verifier::spinoff_prover]
proof fn lemma_render_task_injective(a: SpecTask, b: SpecTask, ra: Seq<char>, rb: Seq<char>)
    requires
        a.create_at.wf(),
        a.update_at.wf(),
        b.create_at.wf(),
        b.update_at.wf(),
        spec_render_task(a) + ra == spec_render_task(b) + rb,
    ensures
        a == b,
        ra == rb,
{
    let s = spec_render_task(a) + ra;
    assert(s.skip(0) =~= s);
    lemma_render_task_steps_head(s, 0, a, ra);
    lemma_render_task_steps_head(s, 0, b, rb);
    let q1 = 0 + "    {\n      \"id\": "@.len() as int;
    assert(spec_parse_int(s.skip(q1)) == Some((a.id, spec_int_digits(a.id as int).len() as int)));
    assert(spec_parse_int(s.skip(q1)) == Some((b.id, spec_int_digits(b.id as int).len() as int)));
    assert(a.id == b.id);
    let q3 = q1 + spec_int_digits(a.id as int).len() + ",\n      \"desc\": \""@.len();
    assert(spec_parse_string(s.skip(q3)) == Some(
        (a.desc, spec_escape(a.desc).len() as int + 1),
    ));
    assert(spec_parse_string(s.skip(q3)) == Some(
        (b.desc, spec_escape(b.desc).len() as int + 1),
    ));
    assert(a.desc == b.desc);
    let q5 = q3 + spec_escape(a.desc).len() + 1 + ",\n      \"status\": \""@.len();
    lemma_render_task_steps_back(s, q5, a, ra);
    lemma_render_task_steps_back(s, q5, b, rb);
    match a.status {
        Status::Todo => {
            assert(spec_expect(s.skip(q5), "Todo"@));
            assert(b.status == Status::Todo);
        },
        Status::Progress => {
            assert(spec_expect(s.skip(q5), "Progress"@));
            assert(b.status == Status::Progress);
        },
        Status::Done => {
            assert(!spec_expect(s.skip(q5), "Todo"@));
            assert(!spec_expect(s.skip(q5), "Progress"@));
            match b.status {
                Status::Todo => {
                    assert(spec_expect(s.skip(q5), "Todo"@));
                },
                Status::Progress => {
                    assert(spec_expect(s.skip(q5), "Progress"@));
                },
                Status::Done => {},
            }
            assert(b.status == Status::Done);
        },
    }
    let q7 = q5 + spec_status_name(a.status).len() + "\",\n      \"create_at\": \""@.len();
    assert(spec_parse_ts(s.skip(q7)) == Some(a.create_at));
    assert(spec_parse_ts(s.skip(q7)) == Some(b.create_at));
    let q9 = q7 + 25 + "\",\n      \"update_at\": \""@.len();
    assert(spec_parse_ts(s.skip(q9)) == Some(a.update_at));
    assert(spec_parse_ts(s.skip(q9)) == Some(b.update_at));
    assert(a == SpecTask {
        id: a.id,
        desc: a.desc,
        status: a.status,
        create_at: a.create_at,
        update_at: a.update_at,
    });
    assert(b == SpecTask {
        id: b.id,
        desc: b.desc,
        status: b.status,
        create_at: b.create_at,
        update_at: b.update_at,
    });
    assert(a == b);
    lemma_split(s, spec_render_task(a), ra);
    lemma_split(s, spec_render_task(b), rb);
    assert(ra == rb);
}

/// Rendered item lists followed by the document tail determine the items.
#[verifier::rlimit(100)]
proof fn lemma_render_items_injective(a: Seq<SpecTask>, b: Seq<SpecTask>)
    requires
        spec_dates_wf(a),
        spec_dates_wf(b),
        a.len() >= 1,
        b.len() >= 1,
        spec_render_items(a) + "\n  ]\n}"@ == spec_render_items(b) + "\n  ]\n}"@,
    ensures
        a == b,
    decreases a.len(),
{
    lemma_doc_lits();
    let tail = "\n  ]\n}"@;
    let s = spec_render_items(a) + tail;
    let resta = if a.len() == 1 {
        tail
    } else {
        ",\n"@ + (spec_render_items(a.skip(1)) + tail)
    };
    let restb = if b.len() == 1 {
        tail
    } else {
        ",\n"@ + (spec_render_items(b.skip(1)) + tail)
    };
    if a.len() > 1 {
        lemma_add_assoc(spec_render_task(a[0]) + ",\n"@, spec_render_items(a.skip(1)), tail);
        lemma_add_assoc(spec_render_task(a[0]), ",\n"@, spec_render_items(a.skip(1)) + tail);
        assert(s == spec_render_task(a[0]) + resta);
    } else {
        assert(s == spec_render_task(a[0]) + resta);
    }
    if b.len() > 1 {
        lemma_add_assoc(spec_render_task(b[0]) + ",\n"@, spec_render_items(b.skip(1)), tail);
        lemma_add_assoc(spec_render_task(b[0]), ",\n"@, spec_render_items(b.skip(1)) + tail);
        assert(s == spec_render_task(b[0]) + restb);
    } else {
        assert(s == spec_render_task(b[0]) + restb);
    }
    assert(a[0].create_at.wf() && a[0].update_at.wf());
    assert(b[0].create_at.wf() && b[0].update_at.wf());
    lemma_render_task_injective(a[0], b[0], resta, restb);
    if a.len() == 1 && b.len() == 1 {
        assert(a =~= b);
    } else if a.len() == 1 {
        assert(resta[0] == '\n');
        assert(restb[0] == ',');
    } else if b.len() == 1 {
        assert(resta[0] == ',');
        assert(restb[0] == '\n');
    } else {
        lemma_split(resta, ",\n"@, spec_render_items(a.skip(1)) + tail);
        lemma_split(restb, ",\n"@, spec_render_items(b.skip(1)) + tail);
        assert(spec_render_items(a.skip(1)) + tail == spec_render_items(b.skip(1)) + tail);
        assert(spec_dates_wf(a.skip(1))) by {
            assert forall|i: int| 0 <= i < a.skip(1).len() implies (#[trigger] a.skip(
                1,
            )[i]).create_at.wf() && a.skip(1)[i].update_at.wf() by {
                assert(a.skip(1)[i] == a[i + 1]);
            }
        }
        assert(spec_dates_wf(b.skip(1))) by {
            assert forall|i: int| 0 <= i < b.skip(1).len() implies (#[trigger] b.skip(
                1,
            )[i]).create_at.wf() && b.skip(1)[i].update_at.wf() by {
                assert(b.skip(1)[i] == b[i + 1]);
            }
        }
        lemma_render_items_injective(a.skip(1), b.skip(1));
        assert forall|i: int| 0 <= i < a.len() implies a[i] == b[i] by {
            if i > 0 {
                assert(a.skip(1)[i - 1] == a[i]);
                assert(b.skip(1)[i - 1] == b[i]);
            }
        }
        assert(a =~= b);
    }
}

/// Law: the stored document determines the store. Two stores with
/// well-formed dates that render to the same text hold the same tasks,
/// field for field — so, with `serialize`'s exact rendering contract and
/// `deserialize`'s acceptance contract, reading a saved document back
/// yields exactly the store that was saved.
pub proof fn lemma_render_injective(a: Seq<SpecTask>, b: Seq<SpecTask>)
    requires
        spec_dates_wf(a),
        spec_dates_wf(b),
        spec_render(a) == spec_render(b),
    ensures
        a == b,
{
    lemma_doc_lits();
    let h = "{\n  \"list\": "@;
    let s = spec_render(a);
    let xa = if a.len() == 0 {
        "[]\n}"@
    } else {
        "[\n"@ + spec_render_items(a) + "\n  ]\n}"@
    };
    let xb = if b.len() == 0 {
        "[]\n}"@
    } else {
        "[\n"@ + spec_render_items(b) + "\n  ]\n}"@
    };
    lemma_split(s, h, xa);
    lemma_split(s, h, xb);
    assert(xa == xb);
    if a.len() == 0 && b.len() == 0 {
        assert(a =~= b);
    } else if a.len() == 0 {
        assert(xb[1] == ("[\n"@ + spec_render_items(b))[1]);
        assert(xb[1] == '\n');
        assert(xa[1] == ']');
    } else if b.len() == 0 {
        assert(xa[1] == ("[\n"@ + spec_render_items(a))[1]);
        assert(xa[1] == '\n');
        assert(xb[1] == ']');
    } else {
        lemma_add_assoc("[\n"@, spec_render_items(a), "\n  ]\n}"@);
        lemma_add_assoc("[\n"@, spec_render_items(b), "\n  ]\n}"@);
        lemma_split(xa, "[\n"@, spec_render_items(a) + "\n  ]\n}"@);
        lemma_split(xa, "[\n"@, spec_render_items(b) + "\n  ]\n}"@);
        lemma_render_items_injective(a, b);
    }
}

/// The characters and lengths of the document's framing literals.
proof fn lemma_doc_lits()
    ensures
        "[\n"@.len() == 2,
        "[\n"@[0] == '[',
        "[\n"@[1] == '\n',
        "[]\n}"@.len() == 4,
        "[]\n}"@[1] == ']',
        ",\n"@.len() == 2,
        ",\n"@[0] == ',',
        "\n  ]\n}"@.len() == 6,
        "\n  ]\n}"@[0] == '\n',
{
    reveal_strlit("[\n");
    reveal_strlit("[]\n}");
    reveal_strlit(",\n");
    reveal_strlit("\n  ]\n}");
}

/// Reads a stored document back into a task store. Accepts exactly the
/// layout `serialize` writes — on success the input is, character for
/// character, the rendering of the result, and every rendering of a store
/// with well-formed dates is accepted — so reading back what was written
/// always succeeds and yields the written store. Anything else fails with
/// `JsonParseError`. The tracked maximum id is rebuilt from the stored
/// ids, as the document carries no other history.
#[verifier::rlimit(100)]
#[verifier::spinoff_prover]
pub fn deserialize(text: &str) -> (r: Result<TaskList, TaskError>)
    ensures
        r matches Ok(tl) ==> spec_dates_wf(spec_tasks_of(tl.list@)) && text@ == spec_render(
            spec_tasks_of(tl.list@),
        ),
        r matches Ok(tl) ==> tl.max_assigned as int == (if crate::task::spec_max_id(tl.list@)
            > 0 {
            crate::task::spec_max_id(tl.list@)
        } else {
            0
        }),
        r matches Err(e) ==> e == TaskError::JsonParseError,
        (exists|l: Seq<SpecTask>| spec_dates_wf(l) && text@ == #[trigger] spec_render(l)) ==> r
            is Ok,
{
    let chars = str_to_chars(text);
    let ghost hyp = exists|l: Seq<SpecTask>| spec_dates_wf(l) && text@ == #[trigger] spec_render(
        l,
    );
    let ghost gl: Seq<SpecTask> = if hyp {
        choose|l: Seq<SpecTask>| spec_dates_wf(l) && text@ == #[trigger] spec_render(l)
    } else {
        Seq::empty()
    };
    proof {
        if hyp {
            assert(spec_dates_wf(gl) && text@ == spec_render(gl));
        }
        assert(chars@.skip(0) =~= chars@);
        lemma_doc_lits();
    }
    let p0 = match eat(&chars, 0, "{\n  \"list\": ") {
        Some(p) => p,
        None => {
            proof {
                if hyp {
                    if gl.len() == 0 {
                        lemma_split(chars@, "{\n  \"list\": "@, "[]\n}"@);
                    } else {
                        lemma_split(
                            chars@,
                            "{\n  \"list\": "@,
                            "[\n"@ + spec_render_items(gl) + "\n  ]\n}"@,
                        );
                    }
                }
            }
            return Err(TaskError::JsonParseError);
        },
    };
    proof {
        if hyp {
            if gl.len() == 0 {
                lemma_split(chars@, "{\n  \"list\": "@, "[]\n}"@);
            } else {
                lemma_split(chars@, "{\n  \"list\": "@, "[\n"@ + spec_render_items(gl) + "\n  ]\n}"@);
                lemma_add_assoc("[\n"@, spec_render_items(gl), "\n  ]\n}"@);
            }
        }
    }
    match eat(&chars, p0, "[]\n}") {
        Some(p1) => {
            // The empty document: the store is empty, and the text must end here.
            proof {
                if hyp && gl.len() > 0 {
                    let x = "[\n"@ + (spec_render_items(gl) + "\n  ]\n}"@);
                    assert(chars@.skip(p0 as int) == x);
                    assert(chars@.skip(p0 as int).take(4)[1] == x[1]);
                    assert(x[1] == '\n');
                }
                if hyp && gl.len() == 0 {
                    assert(chars@.skip(p0 as int) == "[]\n}"@);
                    assert(chars@.skip(p0 as int).len() == 4);
                }
            }
            if p1 == chars.len() {
                let tl = TaskList { list: Vec::new(), max_assigned: 0 };
                proof {
                    assert(spec_tasks_of(tl.list@) =~= Seq::<SpecTask>::empty());
                    if hyp {
                        assert(spec_tasks_of(tl.list@) =~= gl);
                    }
                }
                let rendered = serialize(&tl);
                if text_eq(rendered.as_str(), text) {
                    return Ok(tl);
                } else {
                    proof {
                        if hyp {
                            assert(rendered@ == text@);
                        }
                    }
                    return Err(TaskError::JsonParseError);
                }
            } else {
                return Err(TaskError::JsonParseError);
            }
        },
        None => {
            proof {
                if hyp && gl.len() == 0 {
                    assert(spec_expect(chars@.skip(p0 as int), "[]\n}"@)) by {
                        assert(chars@.skip(p0 as int).take(4) =~= "[]\n}"@);
                    }
                }
            }
        },
    }
    // A nonempty document.
    let p1 = match eat(&chars, p0, "[\n") {
        Some(p) => p,
        None => {
            proof {
                if hyp {
                    lemma_split_at(
                        chars@,
                        p0 as int,
                        "[\n"@,
                        spec_render_items(gl) + "\n  ]\n}"@,
                    );
                }
            }
            return Err(TaskError::JsonParseError);
        },
    };
    proof {
        if hyp {
            lemma_split_at(chars@, p0 as int, "[\n"@, spec_render_items(gl) + "\n  ]\n}"@);
            assert(chars@.skip(p1 as int) == spec_render_items(gl) + "\n  ]\n}"@);
            assert(gl.take(0) =~= Seq::<SpecTask>::empty());
            assert(gl.skip(0) =~= gl);
        }
    }
    let mut list: Vec<Task> = Vec::new();
    let mut p = p1;
    let mut done = false;
    while !done
        invariant
            p <= chars@.len(),
            chars@ == text@,
            hyp == (exists|l: Seq<SpecTask>|
                spec_dates_wf(l) && text@ == #[trigger] spec_render(l)),
            hyp ==> spec_dates_wf(gl) && text@ == spec_render(gl) && gl.len() > 0,
            hyp && !done ==> list@.len() < gl.len() && spec_tasks_of(list@) == gl.take(
                list@.len() as int,
            ) && chars@.skip(p as int) == spec_render_items(gl.skip(list@.len() as int))
                + "\n  ]\n}"@,
            hyp && done ==> spec_tasks_of(list@) == gl && p as int == chars@.len(),
        decreases chars@.len() - p + (if done { 0int } else { 1int }),
    {
        let ghost k = list@.len() as int;
        let ghost sub = gl.skip(k);
        proof {
            lemma_doc_lits();
            if hyp {
                assert(sub.len() > 0);
                assert(sub[0] == gl[k]);
                assert(gl[k].create_at.wf() && gl[k].update_at.wf());
                if sub.len() == 1 {
                    assert(spec_render_items(sub) == spec_render_task(sub[0]));
                    assert(chars@.skip(p as int) == spec_render_task(gl[k]) + "\n  ]\n}"@);
                } else {
                    let it = spec_render_items(sub.skip(1));
                    assert(spec_render_items(sub) == spec_render_task(sub[0]) + ",\n"@ + it);
                    lemma_add_assoc(
                        spec_render_task(sub[0]) + ",\n"@,
                        it,
                        "\n  ]\n}"@,
                    );
                    lemma_add_assoc(spec_render_task(sub[0]), ",\n"@, it + "\n  ]\n}"@);
                    assert(chars@.skip(p as int) == spec_render_task(gl[k]) + (",\n"@ + (it
                        + "\n  ]\n}"@)));
                }
            }
        }
        let (t, p2) = match scan_task(&chars, p) {
            Some(v) => v,
            None => {
                return Err(TaskError::JsonParseError);
            },
        };
        list.push(t);
        proof {
            if hyp {
                assert(spec_task_of(t) == gl[k]);
                assert(p2 as int == p + spec_render_task(gl[k]).len());
                assert(spec_tasks_of(list@) =~= gl.take(k + 1));
                if sub.len() == 1 {
                    lemma_split_at(chars@, p as int, spec_render_task(gl[k]), "\n  ]\n}"@);
                } else {
                    let it = spec_render_items(sub.skip(1));
                    lemma_split_at(
                        chars@,
                        p as int,
                        spec_render_task(gl[k]),
                        ",\n"@ + (it + "\n  ]\n}"@),
                    );
                }
            }
        }
        match eat(&chars, p2, ",\n") {
            Some(p3) => {
                proof {
                    if hyp {
                        if sub.len() == 1 {
                            assert(chars@.skip(p2 as int).take(2)[0] == chars@.skip(p2 as int)[0]);
                            assert(chars@.skip(p2 as int)[0] == '\n');
                        }
                        let it = spec_render_items(sub.skip(1));
                        lemma_split_at(chars@, p2 as int, ",\n"@, it + "\n  ]\n}"@);
                        assert(sub.skip(1) =~= gl.skip(k + 1));
                    }
                }
                if p3 <= p {
                    return Err(TaskError::JsonParseError);
                }
                p = p3;
            },
            None => {
                proof {
                    if hyp && sub.len() > 1 {
                        let it = spec_render_items(sub.skip(1));
                        assert(spec_expect(chars@.skip(p2 as int), ",\n"@)) by {
                            lemma_split_at(chars@, p2 as int, ",\n"@, it + "\n  ]\n}"@);
                        }
                    }
                }
                let p3 = match eat(&chars, p2, "\n  ]\n}") {
                    Some(v) => v,
                    None => {
                        proof {
                            if hyp {
                                assert(spec_expect(chars@.skip(p2 as int), "\n  ]\n}"@)) by {
                                    lemma_split_at(
                                        chars@,
                                        p2 as int,
                                        "\n  ]\n}"@,
                                        Seq::<char>::empty(),
                                    );
                                    assert(chars@.skip(p2 as int) =~= "\n  ]\n}"@
                                        + Seq::<char>::empty());
                                }
                            }
                        }
                        return Err(TaskError::JsonParseError);
                    },
                };
                if p3 != chars.len() {
                    proof {
                        if hyp {
                            assert(sub.len() == 1);
                            assert(chars@.skip(p2 as int) == "\n  ]\n}"@);
                            assert(chars@.skip(p2 as int).len() == 6);
                        }
                    }
                    return Err(TaskError::JsonParseError);
                }
                proof {
                    if hyp {
                        assert(gl.take(k + 1) =~= gl);
                    }
                }
                done = true;
                p = p3;
            },
        }
    }
    let mut tl = TaskList { list, max_assigned: 0 };
    let m = tl.max_id();
    if m > 0 {
        tl.max_assigned = m;
    }
    if !dates_wf(&tl) {
        return Err(TaskError::JsonParseError);
    }
    let rendered = serialize(&tl);
    if text_eq(rendered.as_str(), text) {
        Ok(tl)
    } else {
        proof {
            if hyp {
                assert(rendered@ == text@);
            }
        }
        Err(TaskError::JsonParseError)
    }
}

} // verus!
