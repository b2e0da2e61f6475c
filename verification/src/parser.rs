//! The document in which a puzzle is written: keys, each followed by a
//! colon and, after a bar, by the indented lines of its value.
use vstd::prelude::*;
use vstd::string::StrSliceExecFns;

verus! {

/// The characters with the Unicode property White_Space.
pub open spec fn is_space(c: char) -> bool {
    let v = c as u32;
    ||| 0x09 <= v <= 0x0d
    ||| v == 0x20
    ||| v == 0x85
    ||| v == 0xa0
    ||| v == 0x1680
    ||| 0x2000 <= v <= 0x200a
    ||| v == 0x2028
    ||| v == 0x2029
    ||| v == 0x202f
    ||| v == 0x205f
    ||| v == 0x3000
}

/// Whether `c` has the Unicode property White_Space.
pub fn space(c: char) -> (b: bool)
    ensures
        b == is_space(c),
{
    let v = c as u32;
    (0x09 <= v && v <= 0x0d) || v == 0x20 || v == 0x85 || v == 0xa0 || v == 0x1680 || (0x2000 <= v
        && v <= 0x200a) || v == 0x2028 || v == 0x2029 || v == 0x202f || v == 0x205f || v == 0x3000
}

/// The number of bytes that `c` takes in UTF-8.
pub open spec fn width_of(c: char) -> int {
    let v = c as u32;
    if v < 0x80 {
        1
    } else if v < 0x800 {
        2
    } else if v < 0x10000 {
        3
    } else {
        4
    }
}

/// The number of bytes that the first `k` characters take in UTF-8.
pub open spec fn bytes_before(s: Seq<char>, k: int) -> int
    decreases k,
{
    if k <= 0 {
        0
    } else {
        bytes_before(s, k - 1) + width_of(s[k - 1])
    }
}

/// The first place in `a..b` that holds no white space; `b` if all do.
pub open spec fn trim_start(s: Seq<char>, a: int, b: int) -> int
    decreases b - a,
{
    if a >= b || !is_space(s[a]) {
        a
    } else {
        trim_start(s, a + 1, b)
    }
}

/// The end of the last stretch in `a..b` that ends without white space;
/// `a` if there is none.
pub open spec fn trim_end(s: Seq<char>, a: int, b: int) -> int
    decreases b - a,
{
    if a >= b || !is_space(s[b - 1]) {
        b
    } else {
        trim_end(s, a, b - 1)
    }
}

/// The stretch `a..b` without the white space at its ends.
pub open spec fn trimmed(s: Seq<char>, a: int, b: int) -> (int, int) {
    (trim_start(s, a, b), trim_end(s, trim_start(s, a, b), b))
}

/// The number of blanks from place `from` on.
pub open spec fn blanks(s: Seq<char>, from: int) -> int
    decreases s.len() - from,
{
    if 0 <= from < s.len() && s[from] == ' ' {
        1 + blanks(s, from + 1)
    } else {
        0
    }
}

/// The line that begins at `from` holds nothing but blanks before its
/// line break.
pub open spec fn blank_line(s: Seq<char>, from: int) -> bool {
    let k = from + blanks(s, from);
    0 <= k < s.len() && s[k] == '\n'
}

/// What the reader is at.
pub enum Mode {
    /// After the colon of a key.
    Value,
    /// In a key.
    Identifier,
    /// In the lines of a value, under a key that is indented by `indent`.
    Multiline { indent: int },
    /// Between a value and the next key.
    Skip,
}

/// The state of the reader.
pub struct Scan {
    pub mode: Mode,
    /// The blanks counted since the last value.
    pub indent: int,
    /// Where the current key, rest of line or value began.
    pub start: int,
    /// The stretch of the current key.
    pub key: (int, int),
    /// The stretches of the keys and values read so far.
    pub parts: Seq<((int, int), (int, int))>,
}

/// Why a document cannot be read.
pub enum Fault {
    /// After the colon stands something other than a bar.
    UnknownValue,
    /// The document ends within a key or a value.
    Unfinished,
}

/// Where and why a document cannot be read: the kind, the stretch that is
/// shown, and the place.
pub struct Failure {
    pub fault: Fault,
    pub from: int,
    pub to: int,
    pub at: int,
}

/// The state before the first character.
pub open spec fn initial() -> Scan {
    Scan { mode: Mode::Identifier, indent: 0, start: 0, key: (0, 0), parts: Seq::empty() }
}

/// The state after the character at place `idx`.
pub open spec fn step(s: Seq<char>, st: Scan, idx: int) -> Result<Scan, Failure> {
    let c = s[idx];
    match st.mode {
        Mode::Value => {
            if c == '\n' {
                let t = trimmed(s, st.start, idx);
                if t.0 == t.1 {
                    Ok(Scan { mode: Mode::Skip, indent: 0, ..st })
                } else if t.1 == t.0 + 1 && s[t.0] == '|' {
                    Ok(
                        Scan {
                            mode: Mode::Multiline { indent: st.indent },
                            indent: 0,
                            start: idx + 1,
                            ..st
                        },
                    )
                } else {
                    Err(Failure { fault: Fault::UnknownValue, from: st.start, to: idx, at: idx })
                }
            } else {
                Ok(st)
            }
        },
        Mode::Multiline { indent } => {
            if c == '\n' && !blank_line(s, idx + 1) && blanks(s, idx + 1) <= indent {
                Ok(
                    Scan {
                        mode: Mode::Skip,
                        indent: 0,
                        parts: st.parts.push((st.key, (st.start, idx))),
                        ..st
                    },
                )
            } else {
                Ok(st)
            }
        },
        Mode::Identifier => {
            if c == '-' {
                Ok(Scan { start: idx + 1, ..st })
            } else if c == ':' {
                Ok(
                    Scan {
                        mode: Mode::Value,
                        key: trimmed(s, st.start, idx),
                        start: idx + 1,
                        ..st
                    },
                )
            } else {
                Ok(st)
            }
        },
        Mode::Skip => {
            if c == ' ' {
                Ok(Scan { indent: st.indent + 1, ..st })
            } else if !is_space(c) {
                Ok(Scan { mode: Mode::Identifier, start: idx, ..st })
            } else {
                Ok(st)
            }
        },
    }
}

/// The state after the first `idx` characters.
pub open spec fn run(s: Seq<char>, idx: int) -> Result<Scan, Failure>
    decreases idx,
{
    if idx <= 0 {
        Ok(initial())
    } else {
        match run(s, idx - 1) {
            Ok(st) => step(s, st, idx - 1),
            Err(f) => Err(f),
        }
    }
}

/// What a stretch of the document holds.
pub open spec fn stretch(s: Seq<char>, r: (int, int)) -> Seq<char> {
    s.subrange(r.0, r.1)
}

/// The keys and values of a document, in the order in which they stand;
/// or where and why it cannot be read.
pub open spec fn parsed(s: Seq<char>) -> Result<Seq<(Seq<char>, Seq<char>)>, Failure> {
    match run(s, s.len() as int) {
        Err(f) => Err(f),
        Ok(st) => {
            if st.mode is Skip {
                Ok(
                    Seq::new(
                        st.parts.len(),
                        |i: int| (stretch(s, st.parts[i].0), stretch(s, st.parts[i].1)),
                    ),
                )
            } else {
                Err(
                    Failure {
                        fault: Fault::Unfinished,
                        from: st.start,
                        to: s.len() as int,
                        at: st.start,
                    },
                )
            }
        },
    }
}

/// The places that a state names lie within what has been read.
pub open spec fn scan_ok(s: Seq<char>, st: Scan, idx: int) -> bool {
    &&& 0 <= st.indent <= idx
    &&& 0 <= st.start <= idx
    &&& 0 <= st.key.0 <= st.key.1 <= idx
    &&& st.mode matches Mode::Multiline { indent } ==> 0 <= indent <= idx
    &&& forall|i: int|
        0 <= i < st.parts.len() ==> 0 <= (#[trigger] st.parts[i]).0.0 <= st.parts[i].0.1 <= idx
            && 0 <= st.parts[i].1.0 <= st.parts[i].1.1 <= idx
}

/// Trimming a stretch gives a stretch within it.
pub proof fn lemma_trimmed(s: Seq<char>, a: int, b: int)
    requires
        0 <= a <= b <= s.len(),
    ensures
        a <= trimmed(s, a, b).0 <= trimmed(s, a, b).1 <= b,
{
    lemma_trim_start(s, a, b);
    lemma_trim_end(s, trim_start(s, a, b), b);
}

/// The trimmed start lies within the stretch.
pub proof fn lemma_trim_start(s: Seq<char>, a: int, b: int)
    requires
        a <= b,
    ensures
        a <= trim_start(s, a, b) <= b,
    decreases b - a,
{
    if a < b && is_space(s[a]) {
        lemma_trim_start(s, a + 1, b);
    }
}

/// The trimmed end lies within the stretch.
pub proof fn lemma_trim_end(s: Seq<char>, a: int, b: int)
    requires
        a <= b,
    ensures
        a <= trim_end(s, a, b) <= b,
    decreases b - a,
{
    if a < b && is_space(s[b - 1]) {
        lemma_trim_end(s, a, b - 1);
    }
}

/// A step keeps the places of the state within what has been read, and
/// a failure names places within the document.
pub proof fn lemma_step_ok(s: Seq<char>, st: Scan, idx: int)
    requires
        0 <= idx < s.len(),
        scan_ok(s, st, idx),
    ensures
        step(s, st, idx) matches Ok(t) ==> scan_ok(s, t, idx + 1),
        step(s, st, idx) matches Err(f) ==> 0 <= f.from <= f.to <= s.len() && 0 <= f.at
            <= s.len(),
{
    lemma_trimmed(s, st.start, idx);
}

/// The bytes of the characters before a place are among the bytes of the
/// document.
pub proof fn lemma_bytes_before(s: Seq<char>, k: int)
    requires
        0 <= k <= s.len(),
    ensures
        0 <= bytes_before(s, k) <= vstd::utf8::encode_utf8(s).len(),
        bytes_before(s, k) + vstd::utf8::encode_utf8(s.skip(k)).len() == vstd::utf8::encode_utf8(
            s,
        ).len(),
    decreases k,
{
    if k > 0 {
        lemma_bytes_before(s, k - 1);
        let rest = s.skip(k - 1);
        assert(rest.drop_first() =~= s.skip(k));
        assert(rest[0] == s[k - 1]);
        vstd::utf8::char_is_scalar(s[k - 1]);
    } else {
        assert(s.skip(0) =~= s);
    }
}

/// Where and why a document could not be read.
#[derive(Debug, PartialEq, Eq)]
pub struct ParserError<'a> {
    /// The place, counted in bytes.
    pub at: usize,
    /// The part of the document that is at fault.
    pub context: &'a str,
    /// What is wrong.
    pub message: &'a str,
}

impl<'a> ParserError<'a> {
    /// What is wrong, the part of the document at fault, and the place.
    pub fn new(message: &'a str, context: &'a str, at: usize) -> (e: Self)
        ensures
            e.message@ == message@,
            e.context@ == context@,
            e.at == at,
    {
        Self { message: message, at: at, context: context }
    }
}

/// What the reader is at, as the program holds it.
#[derive(Debug, PartialEq, Eq, Clone, Copy)]
pub enum State {
    Value,
    Identifier,
    Multiline { indent: usize },
    Skip,
}

impl View for State {
    type V = Mode;

    /// The state as mathematics.
    open spec fn view(&self) -> Mode {
        match *self {
            State::Value => Mode::Value,
            State::Identifier => Mode::Identifier,
            State::Multiline { indent } => Mode::Multiline { indent: indent as int },
            State::Skip => Mode::Skip,
        }
    }
}

/// The message for each fault.
pub open spec fn message_of(f: Fault) -> Seq<char> {
    match f {
        Fault::UnknownValue => "Unknown value"@,
        Fault::Unfinished => "Unfinished data. Perhaps missing new line."@,
    }
}

/// The stretch `a..b` of `cs` without the white space at its ends.
pub fn trim(cs: &Vec<char>, a: usize, b: usize) -> (r: (usize, usize))
    requires
        a <= b <= cs.len(),
    ensures
        (r.0 as int, r.1 as int) == trimmed(cs@, a as int, b as int),
        a <= r.0 <= r.1 <= b,
{
    let mut x = a;
    while x < b && space(cs[x])
        invariant
            a <= x <= b,
            b <= cs.len(),
            trim_start(cs@, a as int, b as int) == trim_start(cs@, x as int, b as int),
        decreases b - x,
    {
        x += 1;
    }
    let mut y = b;
    while x < y && space(cs[y - 1])
        invariant
            x <= y <= b,
            b <= cs.len(),
            trim_end(cs@, x as int, b as int) == trim_end(cs@, x as int, y as int),
        decreases y - x,
    {
        y -= 1;
    }
    (x, y)
}

/// Reads a document.  Returns its keys and values in the order in which
/// they stand, each value as it is written, with its indentation; or
/// where and why the document cannot be read.
pub fn parse<'a>(contents: &'a str) -> (r: Result<Vec<(&'a str, &'a str)>, ParserError<'a>>)
    ensures
        match r {
            Ok(v) => {
                &&& parsed(contents@) is Ok
                &&& v@.len() == parsed(contents@)->Ok_0.len()
                &&& forall|i: int|
                    0 <= i < v@.len() ==> (#[trigger] v@[i]).0@ == parsed(contents@)->Ok_0[i].0
                        && v@[i].1@ == parsed(contents@)->Ok_0[i].1
            },
            Err(e) => {
                &&& parsed(contents@) is Err
                &&& e.message@ == message_of(parsed(contents@)->Err_0.fault)
                &&& e.context@ == contents@.subrange(
                    parsed(contents@)->Err_0.from,
                    parsed(contents@)->Err_0.to,
                )
                &&& e.at == bytes_before(contents@, parsed(contents@)->Err_0.at)
            },
        },
{
    let cs = crate::text::chars_of(contents);
    let n = cs.len();
    let total = contents.as_bytes().len();
    let ghost s = contents@;
    let mut parts: Vec<(&'a str, &'a str)> = Vec::new();
    let mut state = State::Identifier;
    let mut indent: usize = 0;
    let mut start: usize = 0;
    let mut start_b: usize = 0;
    let mut key: (usize, usize) = (0, 0);
    let mut idx: usize = 0;
    let mut idx_b: usize = 0;
    let ghost mut st = initial();
    while idx < n
        invariant
            idx <= n,
            n == s.len(),
            s == contents@,
            cs@ == s,
            total == vstd::utf8::encode_utf8(s).len(),
            run(s, idx as int) == Ok::<Scan, Failure>(st),
            scan_ok(s, st, idx as int),
            st.mode == state@,
            st.indent == indent,
            st.start == start,
            st.key == (key.0 as int, key.1 as int),
            idx_b == bytes_before(s, idx as int),
            start_b == bytes_before(s, start as int),
            parts@.len() == st.parts.len(),
            forall|i: int|
                0 <= i < parts@.len() ==> (#[trigger] parts@[i]).0@ == stretch(s, st.parts[i].0)
                    && parts@[i].1@ == stretch(s, st.parts[i].1),
        decreases n - idx,
    {
        let c = cs[idx];
        proof {
            lemma_step_ok(s, st, idx as int);
            lemma_bytes_before(s, idx as int);
            lemma_bytes_before(s, idx + 1);
        }
        let w: usize = if (c as u32) < 0x80 {
            1
        } else if (c as u32) < 0x800 {
            2
        } else if (c as u32) < 0x10000 {
            3
        } else {
            4
        };
        match state {
            State::Value => {
                if c == '\n' {
                    let t = trim(&cs, start, idx);
                    if t.0 == t.1 {
                        state = State::Skip;
                        indent = 0;
                    } else if t.1 == t.0 + 1 && cs[t.0] == '|' {
                        state = State::Multiline { indent: indent };
                        start = idx + 1;
                        start_b = idx_b + 1;
                        indent = 0;
                    } else {
                        proof {
                            lemma_run_fails(s, idx + 1, n as int);
                        }
                        return Err(
                            ParserError::new(
                                "Unknown value",
                                contents.substring_char(start, idx),
                                idx_b,
                            ),
                        );
                    }
                }
            },
            State::Multiline { indent: current } => {
                if c == '\n' {
                    // look ahead: the blanks of the line to come
                    let mut k = idx + 1;
                    while k < n && cs[k] == ' '
                        invariant
                            idx + 1 <= k <= n,
                            n == s.len(),
                            cs@ == s,
                            blanks(s, idx + 1) == (k - idx - 1) + blanks(s, k as int),
                        decreases n - k,
                    {
                        k += 1;
                    }
                    let upcoming = k - idx - 1;
                    let is_empty = k < n && cs[k] == '\n';
                    if !is_empty && upcoming <= current {
                        let name = contents.substring_char(key.0, key.1);
                        let value = contents.substring_char(start, idx);
                        parts.push((name, value));
                        state = State::Skip;
                        indent = 0;
                    }
                }
            },
            State::Identifier => {
                if c == '-' {
                    start = idx + 1;
                    start_b = idx_b + 1;
                } else if c == ':' {
                    key = trim(&cs, start, idx);
                    state = State::Value;
                    start = idx + 1;
                    start_b = idx_b + 1;
                }
            },
            State::Skip => {
                if c == ' ' {
                    indent += 1;
                } else if !space(c) {
                    state = State::Identifier;
                    start = idx;
                    start_b = idx_b;
                }
            },
        }
        proof {
            st = step(s, st, idx as int)->Ok_0;
        }
        idx += 1;
        idx_b += w;
    }
    match state {
        State::Skip => {
            proof {
                assert(parts@.len() == parsed(s)->Ok_0.len());
            }
            Ok(parts)
        },
        _ => Err(
            ParserError::new(
                "Unfinished data. Perhaps missing new line.",
                contents.substring_char(start, n),
                start_b,
            ),
        ),
    }
}

/// Once the reader has failed it stays failed.
pub proof fn lemma_run_fails(s: Seq<char>, k: int, n: int)
    requires
        0 <= k <= n,
        run(s, k) is Err,
    ensures
        run(s, n) == run(s, k),
    decreases n - k,
{
    if k < n {
        lemma_run_fails(s, k, n - 1);
    }
}

/// As long as the reader has not failed, the places that its state names
/// lie within what it has read.
pub proof fn lemma_run_ok(s: Seq<char>, idx: int)
    requires
        0 <= idx <= s.len(),
    ensures
        run(s, idx) matches Ok(st) ==> scan_ok(s, st, idx),
    decreases idx,
{
    if idx > 0 {
        lemma_run_ok(s, idx - 1);
        if let Ok(st) = run(s, idx - 1) {
            lemma_step_ok(s, st, idx - 1);
        }
    }
}

/// No key and no value is longer than the document.
pub proof fn lemma_parsed_bounds(s: Seq<char>)
    requires
        parsed(s) is Ok,
    ensures
        forall|i: int|
            0 <= i < parsed(s)->Ok_0.len() ==> (#[trigger] parsed(s)->Ok_0[i]).0.len() <= s.len()
                && parsed(s)->Ok_0[i].1.len() <= s.len(),
{
    lemma_run_ok(s, s.len() as int);
    let st = run(s, s.len() as int)->Ok_0;
    assert forall|i: int| 0 <= i < parsed(s)->Ok_0.len() implies (#[trigger] parsed(
        s,
    )->Ok_0[i]).0.len() <= s.len() && parsed(s)->Ok_0[i].1.len() <= s.len() by {
        assert(0 <= st.parts[i].0.0 <= st.parts[i].0.1 <= s.len());
    }
}

} // verus!
