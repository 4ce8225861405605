use vstd::prelude::*;
use vstd::string::StringExecFns;
use crate::text::{chars_of, push_char};
use crate::value::{entries_model, model_of, models_of, EntriesModel, Value, ValueModel};

verus! {

/// How a character is written inside a quoted string.
pub open spec fn escape_char(c: char) -> Seq<char> {
    if c == '"' {
        seq!['\\', '"']
    } else if c == '\\' {
        seq!['\\', '\\']
    } else if c == '\n' {
        seq!['\\', 'n']
    } else if c == '\t' {
        seq!['\\', 't']
    } else {
        seq![c]
    }
}

/// The characters of `t` with quote, backslash, newline and tab escaped.
pub open spec fn escape(t: Seq<char>) -> Seq<char>
    decreases t.len(),
{
    if t.len() == 0 {
        Seq::empty()
    } else {
        escape(t.drop_last()) + escape_char(t.last())
    }
}

/// `t` as a quoted string literal.
pub open spec fn quote(t: Seq<char>) -> Seq<char> {
    seq!['"'] + escape(t) + seq!['"']
}

/// How a value is written: a quoted string, a bare token, `[v,...]` or `{key=v,...}`.
pub open spec fn wire(m: ValueModel) -> Seq<char>
    decreases m,
{
    match m {
        ValueModel::Null => seq!['n', 'u', 'l', 'l'],
        ValueModel::Bool(b) => if b {
            seq!['t', 'r', 'u', 'e']
        } else {
            seq!['f', 'a', 'l', 's', 'e']
        },
        ValueModel::Number(t) => t,
        ValueModel::Str(t) => quote(t),
        ValueModel::List(items) => seq!['['] + wire_items(items) + seq![']'],
        ValueModel::Object(entries) => seq!['{'] + wire_entries(entries) + seq!['}'],
    }
}

/// The elements of a list, written and separated by commas.
pub open spec fn wire_items(s: Seq<ValueModel>) -> Seq<char>
    decreases s,
{
    if s.len() == 0 {
        Seq::empty()
    } else if s.len() == 1 {
        wire(s[0])
    } else {
        wire_items(s.subrange(0, s.len() - 1)) + seq![','] + wire(s[s.len() - 1])
    }
}

/// The entries of a map, written as `key=value` and separated by commas.
pub open spec fn wire_entries(s: EntriesModel) -> Seq<char>
    decreases s,
{
    if s.len() == 0 {
        Seq::empty()
    } else if s.len() == 1 {
        s[0].0 + seq!['='] + wire(s[0].1)
    } else {
        wire_entries(s.subrange(0, s.len() - 1)) + seq![','] + s[s.len() - 1].0 + seq!['=']
            + wire(s[s.len() - 1].1)
    }
}

pub proof fn lemma_models_of(s: Seq<Value>)
    ensures
        models_of(s).len() == s.len(),
        forall|i: int| 0 <= i < s.len() ==> #[trigger] models_of(s)[i] == model_of(s[i]),
    decreases s.len(),
{
    if s.len() > 0 {
        lemma_models_of(s.subrange(0, s.len() - 1));
    }
}

pub proof fn lemma_entries_model(s: Seq<(String, Value)>)
    ensures
        entries_model(s).len() == s.len(),
        forall|i: int|
            0 <= i < s.len() ==> #[trigger] entries_model(s)[i] == (s[i].0@, model_of(s[i].1)),
    decreases s.len(),
{
    if s.len() > 0 {
        lemma_entries_model(s.subrange(0, s.len() - 1));
    }
}

/// Appends `t` to `out` as a quoted string literal.
pub fn write_quoted(t: &str, out: &mut String)
    ensures
        final(out)@ == old(out)@ + quote(t@),
{
    let cs = chars_of(t);
    push_char(out, '"');
    let ghost start = out@;
    let mut i: usize = 0;
    while i < cs.len()
        invariant
            cs@ == t@,
            0 <= i <= cs@.len(),
            out@ == start + escape(cs@.subrange(0, i as int)),
        decreases cs@.len() - i,
    {
        let c = cs[i];
        if c == '"' {
            push_char(out, '\\');
            push_char(out, '"');
        } else if c == '\\' {
            push_char(out, '\\');
            push_char(out, '\\');
        } else if c == '\n' {
            push_char(out, '\\');
            push_char(out, 'n');
        } else if c == '\t' {
            push_char(out, '\\');
            push_char(out, 't');
        } else {
            push_char(out, c);
        }
        assert(cs@.subrange(0, i + 1).drop_last() =~= cs@.subrange(0, i as int));
        assert(out@ =~= start + escape(cs@.subrange(0, i + 1)));
        i = i + 1;
    }
    push_char(out, '"');
    assert(cs@.subrange(0, cs@.len() as int) =~= t@);
    assert(final(out)@ =~= old(out)@ + quote(t@));
}

/// Appends the written form of `v` to `out`.
pub fn write_value(v: &Value, out: &mut String)
    ensures
        final(out)@ == old(out)@ + wire(v@),
    decreases v@,
{
    match v {
        Value::Null => {
            out.append("null");
            proof {
                reveal_strlit("null");
            }
            assert(final(out)@ =~= old(out)@ + wire(v@));
        },
        Value::Bool(b) => {
            if *b {
                out.append("true");
                proof {
                    reveal_strlit("true");
                }
            } else {
                out.append("false");
                proof {
                    reveal_strlit("false");
                }
            }
            assert(final(out)@ =~= old(out)@ + wire(v@));
        },
        Value::Number(t) => {
            out.append(t.as_str());
        },
        Value::Str(t) => {
            write_quoted(t.as_str(), out);
        },
        Value::List(items) => {
            let ghost ms = models_of(items@);
            proof {
                lemma_models_of(items@);
            }
            push_char(out, '[');
            let ghost start = out@;
            let mut i: usize = 0;
            while i < items.len()
                invariant
                    v@ == ValueModel::List(ms),
                    ms == models_of(items@),
                    ms.len() == items@.len(),
                    forall|k: int| 0 <= k < items@.len() ==> #[trigger] ms[k] == model_of(items@[k]),
                    0 <= i <= items@.len(),
                    out@ == start + wire_items(ms.subrange(0, i as int)),
                decreases items@.len() - i,
            {
                if i > 0 {
                    push_char(out, ',');
                }
                proof {
                    assert(decreases_to!(v@ => v@->List_0));
                    assert(decreases_to!(ms => ms[i as int]));
                }
                write_value(&items[i], out);
                assert(ms.subrange(0, i + 1).subrange(0, i as int) =~= ms.subrange(0, i as int));
                assert(out@ =~= start + wire_items(ms.subrange(0, i + 1)));
                i = i + 1;
            }
            push_char(out, ']');
            assert(ms.subrange(0, ms.len() as int) =~= ms);
            assert(final(out)@ =~= old(out)@ + wire(v@));
        },
        Value::Object(entries) => {
            let ghost es = entries_model(entries@);
            proof {
                lemma_entries_model(entries@);
            }
            push_char(out, '{');
            let ghost start = out@;
            let mut i: usize = 0;
            while i < entries.len()
                invariant
                    v@ == ValueModel::Object(es),
                    es == entries_model(entries@),
                    es.len() == entries@.len(),
                    forall|k: int|
                        0 <= k < entries@.len() ==> #[trigger] es[k] == (
                        entries@[k].0@,
                        model_of(entries@[k].1),
                    ),
                    0 <= i <= entries@.len(),
                    out@ == start + wire_entries(es.subrange(0, i as int)),
                decreases entries@.len() - i,
            {
                if i > 0 {
                    push_char(out, ',');
                }
                out.append(entries[i].0.as_str());
                push_char(out, '=');
                proof {
                    assert(decreases_to!(v@ => v@->Object_0));
                    assert(decreases_to!(es => es[i as int]));
                    assert(decreases_to!(es[i as int] => es[i as int].1));
                }
                write_value(&entries[i].1, out);
                assert(es.subrange(0, i + 1).subrange(0, i as int) =~= es.subrange(0, i as int));
                assert(out@ =~= start + wire_entries(es.subrange(0, i + 1)));
                i = i + 1;
            }
            push_char(out, '}');
            assert(es.subrange(0, es.len() as int) =~= es);
            assert(final(out)@ =~= old(out)@ + wire(v@));
        },
    }
}

/// A command for the debugger: an operation, its parameters and its options.
///
/// It carries no token: replies are matched to commands by their order.
pub struct MiCommand {
    pub operation: String,
    pub parameters: Vec<Value>,
    pub options: Vec<(String, Option<String>)>,
}

/// The model of an option: a flag and, maybe, its value.
pub type OptionModel = (Seq<char>, Option<Seq<char>>);

/// The mathematical model of a `MiCommand`.
pub struct CommandModel {
    pub operation: Seq<char>,
    pub parameters: Seq<ValueModel>,
    pub options: Seq<OptionModel>,
}

pub open spec fn option_model(o: (String, Option<String>)) -> OptionModel {
    (
        o.0@,
        match o.1 {
            Some(v) => Some(v@),
            None => None,
        },
    )
}

impl View for MiCommand {
    type V = CommandModel;

    open spec fn view(&self) -> CommandModel {
        CommandModel {
            operation: self.operation@,
            parameters: models_of(self.parameters@),
            options: self.options@.map_values(|o: (String, Option<String>)| option_model(o)),
        }
    }
}

/// The text that stands for a parameter: a string as it is, any other value in its written form.
pub open spec fn param_text(m: ValueModel) -> Seq<char> {
    match m {
        ValueModel::Str(t) => t,
        _ => wire(m),
    }
}

/// Each parameter after a space, quoted.
pub open spec fn params_line(ps: Seq<ValueModel>) -> Seq<char>
    decreases ps.len(),
{
    if ps.len() == 0 {
        Seq::empty()
    } else {
        params_line(ps.drop_last()) + seq![' '] + quote(param_text(ps.last()))
    }
}

/// An option: its flag, then `=value` if it has a value.
pub open spec fn option_text(o: OptionModel) -> Seq<char> {
    match o.1 {
        Some(v) => o.0 + seq!['='] + v,
        None => o.0,
    }
}

/// Each option after a space.
pub open spec fn options_line(os: Seq<OptionModel>) -> Seq<char>
    decreases os.len(),
{
    if os.len() == 0 {
        Seq::empty()
    } else {
        options_line(os.drop_last()) + seq![' '] + option_text(os.last())
    }
}

/// The line that sends a command: `-operation`, the parameters, the options, a line break.
pub open spec fn command_line(c: CommandModel) -> Seq<char> {
    seq!['-'] + c.operation + params_line(c.parameters) + options_line(c.options) + seq!['\n']
}

impl MiCommand {
    /// A command with no parameters and no options.
    pub fn new(operation: &str) -> (r: MiCommand)
        ensures
            r@.operation == operation@,
            r@.parameters.len() == 0,
            r@.options.len() == 0,
    {
        let r = MiCommand {
            operation: operation.to_string(),
            parameters: Vec::new(),
            options: Vec::new(),
        };
        assert(r@.parameters =~= Seq::empty());
        r
    }

    /// The line that sends this command, line break included.
    pub fn to_interpreter_string(&self) -> (r: String)
        ensures
            r@ == command_line(self@),
    {
        let mut out = String::new();
        push_char(&mut out, '-');
        out.append(self.operation.as_str());
        let ghost head = out@;
        let ghost ms = models_of(self.parameters@);
        proof {
            lemma_models_of(self.parameters@);
        }
        let mut i: usize = 0;
        while i < self.parameters.len()
            invariant
                ms == models_of(self.parameters@),
                ms.len() == self.parameters@.len(),
                forall|k: int|
                    0 <= k < self.parameters@.len() ==> #[trigger] ms[k] == model_of(
                        self.parameters@[k],
                    ),
                0 <= i <= self.parameters@.len(),
                out@ == head + params_line(ms.subrange(0, i as int)),
            decreases self.parameters@.len() - i,
        {
            push_char(&mut out, ' ');
            let p = &self.parameters[i];
            match p {
                Value::Str(t) => {
                    write_quoted(t.as_str(), &mut out);
                },
                _ => {
                    let mut written = String::new();
                    write_value(p, &mut written);
                    assert(written@ =~= wire(p@));
                    write_quoted(written.as_str(), &mut out);
                },
            }
            assert(ms.subrange(0, i + 1).drop_last() =~= ms.subrange(0, i as int));
            assert(out@ =~= head + params_line(ms.subrange(0, i + 1)));
            i = i + 1;
        }
        assert(ms.subrange(0, ms.len() as int) =~= ms);
        let ghost mid = out@;
        let ghost os = self@.options;
        let mut j: usize = 0;
        while j < self.options.len()
            invariant
                os == self@.options,
                os.len() == self.options@.len(),
                0 <= j <= self.options@.len(),
                out@ == mid + options_line(os.subrange(0, j as int)),
            decreases self.options@.len() - j,
        {
            push_char(&mut out, ' ');
            out.append(self.options[j].0.as_str());
            match &self.options[j].1 {
                Some(v) => {
                    push_char(&mut out, '=');
                    out.append(v.as_str());
                },
                None => {},
            }
            assert(os[j as int] == option_model(self.options@[j as int]));
            assert(os.subrange(0, j + 1).drop_last() =~= os.subrange(0, j as int));
            assert(out@ =~= mid + options_line(os.subrange(0, j + 1)));
            j = j + 1;
        }
        assert(os.subrange(0, os.len() as int) =~= os);
        push_char(&mut out, '\n');
        assert(out@ =~= command_line(self@));
        out
    }
}

} // verus!
