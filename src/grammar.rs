use vstd::prelude::*;
use crate::record::{
    AsyncKind, OutOfBandRecord, ParseError, Record, RecordModel, ResultClass, ResultRecord, StreamKind,
    StreamRecord,
};
use crate::command::lemma_entries_model;
use crate::text::{chars_of, push_char, same_text, text_of};
use crate::value::{entries_model, model_of, models_of, EntriesModel, Value, ValueModel};

verus! {

/// Characters that delimit the parts of a value: they never occur in a bare token or a key.
pub open spec fn is_delimiter(c: char) -> bool {
    c == '"' || c == '{' || c == '}' || c == '[' || c == ']' || c == ',' || c == '='
}

/// Where the run of non-delimiter characters that starts at `i` ends.
pub open spec fn token_end(s: Seq<char>, i: int) -> int
    decreases s.len() - i,
{
    if 0 <= i < s.len() && !is_delimiter(s[i]) {
        token_end(s, i + 1)
    } else {
        i
    }
}

/// The character that an escape sequence `\c` stands for.
pub open spec fn unescape(c: char) -> Option<char> {
    if c == '"' {
        Some('"')
    } else if c == '\\' {
        Some('\\')
    } else if c == 'n' {
        Some('\n')
    } else if c == 't' {
        Some('\t')
    } else {
        None
    }
}

/// The body of a quoted string from `i` (just after the opening quote), decoded after `acc`,
/// with the position just after the closing quote.
pub open spec fn cstring_at(s: Seq<char>, i: int, acc: Seq<char>) -> Option<(Seq<char>, int)>
    decreases s.len() - i,
{
    if i < 0 || i >= s.len() {
        None
    } else if s[i] == '"' {
        Some((acc, i + 1))
    } else if s[i] == '\\' {
        if i + 1 >= s.len() {
            None
        } else {
            match unescape(s[i + 1]) {
                Some(d) => cstring_at(s, i + 2, acc.push(d)),
                None => None,
            }
        }
    } else {
        cstring_at(s, i + 1, acc.push(s[i]))
    }
}

/// Whether one of the entries `acc` has the key `key`.
pub open spec fn has_key(acc: EntriesModel, key: Seq<char>) -> bool {
    exists|k: int| 0 <= k < acc.len() && (#[trigger] acc[k]).0 == key
}

/// The value written at `i`, with the position just after it: a quoted string, a map, a
/// list, or else a bare token, which is kept as text.
pub open spec fn value_at(s: Seq<char>, i: int) -> Option<(ValueModel, int)>
    decreases s.len() - i, 0int,
{
    if i < 0 || i >= s.len() {
        None
    } else if s[i] == '"' {
        match cstring_at(s, i + 1, Seq::empty()) {
            Some((t, j)) => Some((ValueModel::Str(t), j)),
            None => None,
        }
    } else if s[i] == '{' {
        if i + 1 < s.len() && s[i + 1] == '}' {
            Some((ValueModel::Object(Seq::empty()), i + 2))
        } else {
            entries_at(s, i + 1, Seq::empty())
        }
    } else if s[i] == '[' {
        if i + 1 < s.len() && s[i + 1] == ']' {
            Some((ValueModel::List(Seq::empty()), i + 2))
        } else {
            items_at(s, i + 1, Seq::empty())
        }
    } else {
        let k = token_end(s, i);
        if k > i {
            Some((ValueModel::Str(s.subrange(i, k)), k))
        } else {
            None
        }
    }
}

/// The `key=value` entries of a map from `i`, after the entries `acc`, up to the closing `}`.
/// Keys are unique. Each entry must end past the point where it started: positions only
/// move forward.
pub open spec fn entries_at(s: Seq<char>, i: int, acc: EntriesModel) -> Option<(ValueModel, int)>
    decreases s.len() - i, 1int,
{
    if i < 0 || i >= s.len() {
        None
    } else {
        let k = token_end(s, i);
        if k <= i || k >= s.len() || s[k] != '=' || has_key(acc, s.subrange(i, k)) {
            None
        } else {
            match value_at(s, k + 1) {
                None => None,
                Some((v, j)) => {
                    let acc2 = acc.push((s.subrange(i, k), v));
                    if j <= i || j >= s.len() {
                        None
                    } else if s[j] == ',' {
                        entries_at(s, j + 1, acc2)
                    } else if s[j] == '}' {
                        Some((ValueModel::Object(acc2), j + 1))
                    } else {
                        None
                    }
                }
            }
        }
    }
}

/// Where the value of a list element at `i` starts: after `key=` if the element has a key.
pub open spec fn item_start(s: Seq<char>, i: int) -> int {
    let k = token_end(s, i);
    if k > i && k < s.len() && s[k] == '=' {
        k + 1
    } else {
        i
    }
}

/// The elements of a list from `i`, after the elements `acc`, up to the closing `]`.
/// An element may carry a key, which the list does not keep.
pub open spec fn items_at(s: Seq<char>, i: int, acc: Seq<ValueModel>) -> Option<(ValueModel, int)>
    decreases s.len() - i, 1int,
{
    if i < 0 || i >= s.len() {
        None
    } else {
        let start = item_start(s, i);
        match value_at(s, start) {
            None => None,
            Some((v, j)) => {
                let acc2 = acc.push(v);
                if j <= i || j >= s.len() {
                    None
                } else if s[j] == ',' {
                    items_at(s, j + 1, acc2)
                } else if s[j] == ']' {
                    Some((ValueModel::List(acc2), j + 1))
                } else {
                    None
                }
            }
        }
    }
}

pub fn is_delimiter_char(c: char) -> (r: bool)
    ensures
        r == is_delimiter(c),
{
    c == '"' || c == '{' || c == '}' || c == '[' || c == ']' || c == ',' || c == '='
}

/// Exec counterpart of `token_end`.
pub fn scan_token(s: &Vec<char>, i: usize) -> (k: usize)
    requires
        i <= s@.len(),
    ensures
        k as int == token_end(s@, i as int),
        i <= k <= s@.len(),
{
    let mut k = i;
    while k < s.len() && !is_delimiter_char(s[k])
        invariant
            i <= k <= s@.len(),
            token_end(s@, k as int) == token_end(s@, i as int),
        decreases s@.len() - k,
    {
        k = k + 1;
    }
    k
}

fn unescape_char(c: char) -> (r: Option<char>)
    ensures
        r == unescape(c),
{
    if c == '"' {
        Some('"')
    } else if c == '\\' {
        Some('\\')
    } else if c == 'n' {
        Some('\n')
    } else if c == 't' {
        Some('\t')
    } else {
        None
    }
}

/// Reads the body of a quoted string that starts at `i`, just after the opening quote.
pub fn parse_cstring(s: &Vec<char>, i: usize) -> (r: Option<(String, usize)>)
    ensures
        match r {
            Some((t, j)) => cstring_at(s@, i as int, Seq::empty()) == Some((t@, j as int)),
            None => cstring_at(s@, i as int, Seq::empty()) is None,
        },
{
    let mut out = String::new();
    let mut k = i;
    loop
        invariant
            i <= k,
            cstring_at(s@, k as int, out@) == cstring_at(s@, i as int, Seq::empty()),
        decreases s@.len() - k,
    {
        if k >= s.len() {
            return None;
        }
        let c = s[k];
        if c == '"' {
            return Some((out, k + 1));
        } else if c == '\\' {
            if k + 1 >= s.len() {
                return None;
            }
            match unescape_char(s[k + 1]) {
                Some(d) => {
                    push_char(&mut out, d);
                    k = k + 2;
                },
                None => {
                    return None;
                },
            }
        } else {
            push_char(&mut out, c);
            k = k + 1;
        }
    }
}

/// Reads the value written at position `i`.
pub fn parse_value(s: &Vec<char>, i: usize) -> (r: Option<(Value, usize)>)
    ensures
        match r {
            Some((v, j)) => value_at(s@, i as int) == Some((v@, j as int)),
            None => value_at(s@, i as int) is None,
        },
    decreases s@.len() - i, 0int,
{
    if i >= s.len() {
        return None;
    }
    let c = s[i];
    if c == '"' {
        match parse_cstring(s, i + 1) {
            Some((t, j)) => Some((Value::Str(t), j)),
            None => None,
        }
    } else if c == '{' {
        if i + 1 < s.len() && s[i + 1] == '}' {
            let empty: Vec<(String, Value)> = Vec::new();
            assert(entries_model(empty@) =~= Seq::empty());
            Some((Value::Object(empty), i + 2))
        } else {
            parse_entries(s, i + 1)
        }
    } else if c == '[' {
        if i + 1 < s.len() && s[i + 1] == ']' {
            let empty: Vec<Value> = Vec::new();
            assert(models_of(empty@) =~= Seq::empty());
            Some((Value::List(empty), i + 2))
        } else {
            parse_items(s, i + 1)
        }
    } else {
        let k = scan_token(s, i);
        if k > i {
            Some((Value::Str(text_of(s, i, k)), k))
        } else {
            None
        }
    }
}

/// Reads a whole text as one value; `None` unless the value takes up the whole text.
pub fn read_value(text: &str) -> (r: Option<Value>)
    ensures
        match r {
            Some(v) => value_at(text@, 0) == Some((v@, text@.len() as int)),
            None => !(value_at(text@, 0) matches Some((_, j)) && j == text@.len()),
        },
{
    let s = chars_of(text);
    match parse_value(&s, 0) {
        Some((v, j)) => if j == s.len() {
            Some(v)
        } else {
            None
        },
        None => None,
    }
}

/// Whether one of the entries has the key `key`.
fn contains_key(acc: &Vec<(String, Value)>, key: &String) -> (r: bool)
    ensures
        r == has_key(entries_model(acc@), key@),
{
    proof {
        lemma_entries_model(acc@);
    }
    let mut j: usize = 0;
    while j < acc.len()
        invariant
            0 <= j <= acc@.len(),
            entries_model(acc@).len() == acc@.len(),
            forall|k: int|
                0 <= k < acc@.len() ==> #[trigger] entries_model(acc@)[k] == (
                    acc@[k].0@,
                    model_of(acc@[k].1),
                ),
            forall|k: int| 0 <= k < j ==> acc@[k].0@ != key@,
        decreases acc@.len() - j,
    {
        if same_text(acc[j].0.as_str(), key.as_str()) {
            assert(entries_model(acc@)[j as int].0 == key@);
            return true;
        }
        j = j + 1;
    }
    assert(!has_key(entries_model(acc@), key@)) by {
        assert forall|k: int| 0 <= k < entries_model(acc@).len() implies (#[trigger] entries_model(
            acc@,
        )[k]).0 != key@ by {
            assert(acc@[k].0@ != key@);
        }
    }
    false
}

/// Reads the entries of a map from `i`, up to and including the closing `}`.
fn parse_entries(s: &Vec<char>, i: usize) -> (r: Option<(Value, usize)>)
    ensures
        match r {
            Some((v, j)) => entries_at(s@, i as int, Seq::empty()) == Some((v@, j as int)),
            None => entries_at(s@, i as int, Seq::empty()) is None,
        },
    decreases s@.len() - i, 1int,
{
    let mut acc: Vec<(String, Value)> = Vec::new();
    let mut pos = i;
    assert(entries_model(acc@) =~= Seq::empty());
    loop
        invariant
            i <= pos,
            entries_at(s@, pos as int, entries_model(acc@)) == entries_at(s@, i as int, Seq::empty()),
        decreases s@.len() - pos,
    {
        if pos >= s.len() {
            return None;
        }
        let k = scan_token(s, pos);
        if k <= pos || k >= s.len() || s[k] != '=' {
            return None;
        }
        let key = text_of(s, pos, k);
        if contains_key(&acc, &key) {
            return None;
        }
        match parse_value(s, k + 1) {
            None => {
                return None;
            },
            Some((v, j)) => {
                let ghost prev = acc@;
                acc.push((key, v));
                assert(acc@.subrange(0, acc@.len() - 1) =~= prev);
                if j <= pos || j >= s.len() {
                    return None;
                }
                if s[j] == ',' {
                    pos = j + 1;
                } else if s[j] == '}' {
                    return Some((Value::Object(acc), j + 1));
                } else {
                    return None;
                }
            },
        }
    }
}

fn scan_item_start(s: &Vec<char>, i: usize) -> (k: usize)
    requires
        i <= s@.len(),
    ensures
        k as int == item_start(s@, i as int),
        i <= k <= s@.len(),
{
    let k = scan_token(s, i);
    if k > i && k < s.len() && s[k] == '=' {
        k + 1
    } else {
        i
    }
}

/// Reads the elements of a list from `i`, up to and including the closing `]`.
fn parse_items(s: &Vec<char>, i: usize) -> (r: Option<(Value, usize)>)
    ensures
        match r {
            Some((v, j)) => items_at(s@, i as int, Seq::empty()) == Some((v@, j as int)),
            None => items_at(s@, i as int, Seq::empty()) is None,
        },
    decreases s@.len() - i, 1int,
{
    let mut acc: Vec<Value> = Vec::new();
    let mut pos = i;
    assert(models_of(acc@) =~= Seq::empty());
    loop
        invariant
            i <= pos,
            items_at(s@, pos as int, models_of(acc@)) == items_at(s@, i as int, Seq::empty()),
        decreases s@.len() - pos,
    {
        if pos >= s.len() {
            return None;
        }
        let start = scan_item_start(s, pos);
        match parse_value(s, start) {
            None => {
                return None;
            },
            Some((v, j)) => {
                let ghost prev = acc@;
                acc.push(v);
                assert(acc@.subrange(0, acc@.len() - 1) =~= prev);
                if j <= pos || j >= s.len() {
                    return None;
                }
                if s[j] == ',' {
                    pos = j + 1;
                } else if s[j] == ']' {
                    return Some((Value::List(acc), j + 1));
                } else {
                    return None;
                }
            },
        }
    }
}

/// Where the run of decimal digits that starts at `i` ends.
pub open spec fn digits_end(s: Seq<char>, i: int) -> int
    decreases s.len() - i,
{
    if 0 <= i < s.len() && '0' <= s[i] && s[i] <= '9' {
        digits_end(s, i + 1)
    } else {
        i
    }
}

/// The `,key=value` pairs from `i` to the end of the line, after the pairs `acc`; keys are unique.
pub open spec fn results_at(s: Seq<char>, i: int, acc: EntriesModel) -> Option<EntriesModel>
    decreases s.len() - i,
{
    if i < 0 || i > s.len() {
        None
    } else if i == s.len() {
        Some(acc)
    } else if s[i] != ',' {
        None
    } else {
        let k = token_end(s, i + 1);
        if k <= i + 1 || k >= s.len() || s[k] != '=' || has_key(acc, s.subrange(i + 1, k)) {
            None
        } else {
            match value_at(s, k + 1) {
                None => None,
                Some((v, j)) => if j <= i || j > s.len() {
                    None
                } else {
                    results_at(s, j, acc.push((s.subrange(i + 1, k), v)))
                },
            }
        }
    }
}

/// The class of a reply, by its keyword.
pub open spec fn result_class_of(t: Seq<char>) -> Option<ResultClass> {
    if t == seq!['d', 'o', 'n', 'e'] {
        Some(ResultClass::Done)
    } else if t == seq!['r', 'u', 'n', 'n', 'i', 'n', 'g'] {
        Some(ResultClass::Running)
    } else if t == seq!['c', 'o', 'n', 'n', 'e', 'c', 't', 'e', 'd'] {
        Some(ResultClass::Connected)
    } else if t == seq!['e', 'r', 'r', 'o', 'r'] {
        Some(ResultClass::Error)
    } else if t == seq!['e', 'x', 'i', 't'] {
        Some(ResultClass::Exit)
    } else {
        None
    }
}

/// The channel of an out-of-band line by its prefix: `*`, `=` or `+`.
pub open spec fn async_kind_of(c: char) -> AsyncKind {
    if c == '*' {
        AsyncKind::Exec
    } else if c == '=' {
        AsyncKind::Notify
    } else {
        AsyncKind::Status
    }
}

/// The channel of a stream line by its prefix: `~`, `@` or `&`.
pub open spec fn stream_kind_of(c: char) -> StreamKind {
    if c == '~' {
        StreamKind::Console
    } else if c == '@' {
        StreamKind::Target
    } else {
        StreamKind::Log
    }
}

/// The record that one line of output (without its line break) stands for, if it follows
/// the grammar: an optional numeric token, a prefix, then either a class keyword with
/// `,key=value` pairs or a single quoted string.
pub open spec fn line_record(s: Seq<char>) -> Option<RecordModel> {
    let p = digits_end(s, 0);
    if p >= s.len() {
        None
    } else {
        let c = s[p];
        if c == '^' || c == '*' || c == '=' || c == '+' {
            let k = token_end(s, p + 1);
            if k <= p + 1 {
                None
            } else {
                match results_at(s, k, Seq::empty()) {
                    None => None,
                    Some(r) => if c == '^' {
                        match result_class_of(s.subrange(p + 1, k)) {
                            Some(rc) => Some(RecordModel::Result(rc, r)),
                            None => None,
                        }
                    } else {
                        Some(RecordModel::OutOfBand(async_kind_of(c), s.subrange(p + 1, k), r))
                    },
                }
            }
        } else if c == '~' || c == '@' || c == '&' {
            if p + 1 < s.len() && s[p + 1] == '"' {
                match cstring_at(s, p + 2, Seq::empty()) {
                    Some((t, j)) => if j == s.len() {
                        Some(RecordModel::Stream(stream_kind_of(c), t))
                    } else {
                        None
                    },
                    None => None,
                }
            } else {
                None
            }
        } else {
            None
        }
    }
}

pub proof fn lemma_digits_end_bounds(s: Seq<char>, i: int)
    requires
        0 <= i <= s.len(),
    ensures
        i <= digits_end(s, i) <= s.len(),
    decreases s.len() - i,
{
    if i < s.len() && '0' <= s[i] && s[i] <= '9' {
        lemma_digits_end_bounds(s, i + 1);
    }
}

fn scan_digits(s: &Vec<char>, i: usize) -> (k: usize)
    requires
        i <= s@.len(),
    ensures
        k as int == digits_end(s@, i as int),
        i <= k <= s@.len(),
{
    let mut k = i;
    while k < s.len() && '0' <= s[k] && s[k] <= '9'
        invariant
            i <= k <= s@.len(),
            digits_end(s@, k as int) == digits_end(s@, i as int),
        decreases s@.len() - k,
    {
        k = k + 1;
    }
    k
}

/// Reads the `,key=value` pairs from `i` to the end of the line.
fn parse_results(s: &Vec<char>, i: usize) -> (r: Option<Vec<(String, Value)>>)
    requires
        i <= s@.len(),
    ensures
        match r {
            Some(v) => results_at(s@, i as int, Seq::empty()) == Some(entries_model(v@)),
            None => results_at(s@, i as int, Seq::empty()) is None,
        },
{
    let mut acc: Vec<(String, Value)> = Vec::new();
    let mut pos = i;
    assert(entries_model(acc@) =~= Seq::empty());
    loop
        invariant
            i <= pos <= s@.len(),
            results_at(s@, pos as int, entries_model(acc@)) == results_at(s@, i as int, Seq::empty()),
        decreases s@.len() - pos,
    {
        if pos == s.len() {
            return Some(acc);
        }
        if s[pos] != ',' {
            return None;
        }
        let k = scan_token(s, pos + 1);
        if k <= pos + 1 || k >= s.len() || s[k] != '=' {
            return None;
        }
        let key = text_of(s, pos + 1, k);
        if contains_key(&acc, &key) {
            return None;
        }
        match parse_value(s, k + 1) {
            None => {
                return None;
            },
            Some((v, j)) => {
                if j <= pos || j > s.len() {
                    return None;
                }
                let ghost prev = acc@;
                acc.push((key, v));
                assert(acc@.subrange(0, acc@.len() - 1) =~= prev);
                pos = j;
            },
        }
    }
}

/// Whether `s[from..to]` is the text `word`.
fn is_word(s: &Vec<char>, from: usize, to: usize, word: &str) -> (r: bool)
    requires
        from <= to <= s@.len(),
    ensures
        r == (s@.subrange(from as int, to as int) == word@),
{
    let w = chars_of(word);
    if to - from != w.len() {
        return false;
    }
    let mut i: usize = 0;
    while i < w.len()
        invariant
            to - from == w@.len(),
            from <= to <= s@.len(),
            w@ == word@,
            0 <= i <= w@.len(),
            forall|m: int| 0 <= m < i ==> s@[from + m] == w@[m],
        decreases w@.len() - i,
    {
        if s[from + i] != w[i] {
            assert(s@.subrange(from as int, to as int)[i as int] != word@[i as int]);
            return false;
        }
        i = i + 1;
    }
    assert(s@.subrange(from as int, to as int) =~= word@);
    true
}

fn result_class(s: &Vec<char>, from: usize, to: usize) -> (r: Option<ResultClass>)
    requires
        from <= to <= s@.len(),
    ensures
        r == result_class_of(s@.subrange(from as int, to as int)),
{
    proof {
        reveal_strlit("done");
        reveal_strlit("running");
        reveal_strlit("connected");
        reveal_strlit("error");
        reveal_strlit("exit");
        assert("done"@ =~= seq!['d', 'o', 'n', 'e']);
        assert("running"@ =~= seq!['r', 'u', 'n', 'n', 'i', 'n', 'g']);
        assert("connected"@ =~= seq!['c', 'o', 'n', 'n', 'e', 'c', 't', 'e', 'd']);
        assert("error"@ =~= seq!['e', 'r', 'r', 'o', 'r']);
        assert("exit"@ =~= seq!['e', 'x', 'i', 't']);
    }
    if is_word(s, from, to, "done") {
        Some(ResultClass::Done)
    } else if is_word(s, from, to, "running") {
        Some(ResultClass::Running)
    } else if is_word(s, from, to, "connected") {
        Some(ResultClass::Connected)
    } else if is_word(s, from, to, "error") {
        Some(ResultClass::Error)
    } else if is_word(s, from, to, "exit") {
        Some(ResultClass::Exit)
    } else {
        None
    }
}

fn async_kind(c: char) -> (r: AsyncKind)
    ensures
        r == async_kind_of(c),
{
    if c == '*' {
        AsyncKind::Exec
    } else if c == '=' {
        AsyncKind::Notify
    } else {
        AsyncKind::Status
    }
}

fn stream_kind(c: char) -> (r: StreamKind)
    ensures
        r == stream_kind_of(c),
{
    if c == '~' {
        StreamKind::Console
    } else if c == '@' {
        StreamKind::Target
    } else {
        StreamKind::Log
    }
}

/// Reads one line of the debugger's output, given without its line break.
///
/// A line that does not follow the grammar gives an error that carries the line.
pub fn parse_line(line: &str) -> (r: Result<Record, ParseError>)
    ensures
        match r {
            Ok(rec) => line_record(line@) == Some(rec@),
            Err(e) => line_record(line@) is None && e.line@ == line@,
        },
{
    let s = chars_of(line);
    match parse_chars(&s) {
        Some(rec) => Ok(rec),
        None => Err(ParseError { line: line.to_string() }),
    }
}

fn parse_chars(s: &Vec<char>) -> (r: Option<Record>)
    ensures
        match r {
            Some(rec) => line_record(s@) == Some(rec@),
            None => line_record(s@) is None,
        },
{
    let p = scan_digits(s, 0);
    if p >= s.len() {
        return None;
    }
    let c = s[p];
    if c == '^' || c == '*' || c == '=' || c == '+' {
        let k = scan_token(s, p + 1);
        if k <= p + 1 {
            return None;
        }
        let results = match parse_results(s, k) {
            Some(r) => r,
            None => {
                return None;
            },
        };
        if c == '^' {
            match result_class(s, p + 1, k) {
                Some(class) => Some(Record::Result(ResultRecord { class, results })),
                None => None,
            }
        } else {
            let class = text_of(s, p + 1, k);
            Some(Record::OutOfBand(OutOfBandRecord { kind: async_kind(c), class, results }))
        }
    } else if c == '~' || c == '@' || c == '&' {
        if p + 1 < s.len() && s[p + 1] == '"' {
            match parse_cstring(s, p + 2) {
                Some((data, j)) => if j == s.len() {
                    Some(Record::Stream(StreamRecord { kind: stream_kind(c), data }))
                } else {
                    None
                },
                None => None,
            }
        } else {
            None
        }
    } else {
        None
    }
}

} // verus!
