use vstd::prelude::*;
use crate::command::{
    command_line, escape, escape_char, options_line, param_text, params_line, quote, wire,
    wire_entries, wire_items, CommandModel,
};
use crate::grammar::{
    cstring_at, entries_at, has_key, is_delimiter, item_start, items_at, token_end, value_at,
};
use crate::value::{EntriesModel, ValueModel};

verus! {

/// A bare token: at least one character, none of them a delimiter.
pub open spec fn is_token(t: Seq<char>) -> bool {
    t.len() > 0 && forall|k: int| 0 <= k < t.len() ==> !is_delimiter(#[trigger] t[k])
}

/// No two entries have the same key.
pub open spec fn keys_unique(es: EntriesModel) -> bool {
    forall|a: int, b: int| 0 <= a < b < es.len() ==> (#[trigger] es[a]).0 != (#[trigger] es[b]).0
}

/// The values that reading can produce: strings, lists and maps, with keys that are bare
/// tokens and no key twice in one map. (A bare token reads as a string, so reading never
/// produces `Null`, `Bool` or `Number`.)
pub open spec fn in_wire_form(m: ValueModel) -> bool
    decreases m,
{
    match m {
        ValueModel::Null => false,
        ValueModel::Bool(_) => false,
        ValueModel::Number(_) => false,
        ValueModel::Str(_) => true,
        ValueModel::List(items) => forall|k: int|
            0 <= k < items.len() ==> in_wire_form(#[trigger] items[k]),
        ValueModel::Object(es) => keys_unique(es) && forall|k: int|
            0 <= k < es.len() ==> is_token(#[trigger] es[k].0) && in_wire_form(es[k].1),
    }
}

/// `w` stands in `s` from position `i`.
pub open spec fn occurs_at(s: Seq<char>, i: int, w: Seq<char>) -> bool {
    0 <= i && i + w.len() <= s.len() && forall|k: int| 0 <= k < w.len() ==> s[i + k] == #[trigger] w[k]
}

/// Position `e` ends a value: the text ends there or a delimiter stands there.
pub open spec fn ends_value(s: Seq<char>, e: int) -> bool {
    e == s.len() || (0 <= e < s.len() && is_delimiter(s[e]))
}

proof fn lemma_occurs_split(s: Seq<char>, i: int, a: Seq<char>, b: Seq<char>)
    requires
        occurs_at(s, i, a + b),
    ensures
        occurs_at(s, i, a),
        occurs_at(s, i + a.len(), b),
{
    assert forall|k: int| 0 <= k < a.len() implies s[i + k] == #[trigger] a[k] by {
        assert((a + b)[k] == a[k]);
    }
    assert forall|k: int| 0 <= k < b.len() implies s[i + a.len() + k] == #[trigger] b[k] by {
        assert((a + b)[a.len() + k] == b[k]);
    }
}

proof fn lemma_escape_front(t: Seq<char>)
    requires
        t.len() > 0,
    ensures
        escape(t) == escape_char(t[0]) + escape(t.drop_first()),
    decreases t.len(),
{
    if t.len() == 1 {
        assert(t.drop_last() =~= Seq::<char>::empty());
        assert(t.drop_first() =~= Seq::<char>::empty());
        assert(escape(t) =~= escape_char(t[0]) + escape(t.drop_first()));
    } else {
        lemma_escape_front(t.drop_last());
        assert(t.drop_first().drop_last() =~= t.drop_last().drop_first());
        assert(escape(t) =~= escape_char(t[0]) + escape(t.drop_first()));
    }
}

proof fn lemma_wire_items_front(s: Seq<ValueModel>)
    requires
        s.len() >= 2,
    ensures
        wire_items(s) == wire(s[0]) + seq![','] + wire_items(s.drop_first()),
    decreases s.len(),
{
    let init = s.subrange(0, s.len() - 1);
    assert(init[0] == s[0]);
    assert(s.drop_first()[s.len() - 2] == s[s.len() - 1]);
    if s.len() == 2 {
        assert(init.len() == 1);
        assert(s.drop_first().len() == 1);
        assert(wire_items(init) == wire(s[0]));
        assert(wire_items(s.drop_first()) == wire(s[1]));
        assert(wire_items(s) =~= wire(s[0]) + seq![','] + wire_items(s.drop_first()));
    } else {
        lemma_wire_items_front(init);
        assert(s.drop_first().subrange(0, s.len() - 2) =~= init.drop_first());
        assert(wire_items(s) =~= wire(s[0]) + seq![','] + wire_items(s.drop_first()));
    }
}

pub open spec fn entry_text(e: (Seq<char>, ValueModel)) -> Seq<char> {
    e.0 + seq!['='] + wire(e.1)
}

proof fn lemma_wire_entries_front(s: EntriesModel)
    requires
        s.len() >= 2,
    ensures
        wire_entries(s) == entry_text(s[0]) + seq![','] + wire_entries(s.drop_first()),
    decreases s.len(),
{
    let init = s.subrange(0, s.len() - 1);
    assert(init[0] == s[0]);
    assert(s.drop_first()[s.len() - 2] == s[s.len() - 1]);
    if s.len() == 2 {
        assert(init.len() == 1);
        assert(s.drop_first().len() == 1);
        assert(wire_entries(init) == entry_text(s[0]));
        assert(wire_entries(s.drop_first()) == entry_text(s[1]));
        assert(wire_entries(s) =~= entry_text(s[0]) + seq![','] + wire_entries(s.drop_first()));
    } else {
        lemma_wire_entries_front(init);
        assert(s.drop_first().subrange(0, s.len() - 2) =~= init.drop_first());
        assert(wire_entries(s) =~= entry_text(s[0]) + seq![','] + wire_entries(s.drop_first()));
    }
}

proof fn lemma_read_token(s: Seq<char>, i: int, t: Seq<char>)
    requires
        forall|k: int| 0 <= k < t.len() ==> !is_delimiter(#[trigger] t[k]),
        occurs_at(s, i, t),
        ends_value(s, i + t.len()),
    ensures
        token_end(s, i) == i + t.len(),
    decreases t.len(),
{
    if t.len() > 0 {
        assert(s[i + 0] == t[0]);
        assert forall|k: int| 0 <= k < t.drop_first().len() implies s[i + 1 + k]
            == #[trigger] t.drop_first()[k] by {
            assert(s[i + (k + 1)] == t[k + 1]);
        }
        lemma_read_token(s, i + 1, t.drop_first());
    }
}

proof fn lemma_read_cstring(s: Seq<char>, i: int, t: Seq<char>, acc: Seq<char>)
    requires
        occurs_at(s, i, escape(t) + seq!['"']),
    ensures
        cstring_at(s, i, acc) == Some((acc + t, i + escape(t).len() + 1)),
    decreases t.len(),
{
    if t.len() == 0 {
        assert(escape(t) =~= Seq::<char>::empty());
        assert((escape(t) + seq!['"'])[0] == '"');
        assert(s[i + 0] == '"');
        assert(acc + t =~= acc);
    } else {
        lemma_escape_front(t);
        let c = t[0];
        let rest = t.drop_first();
        let e = escape_char(c);
        assert(escape(t) + seq!['"'] =~= e + (escape(rest) + seq!['"']));
        lemma_occurs_split(s, i, e, escape(rest) + seq!['"']);
        assert(s[i + 0] == e[0]);
        if e.len() == 2 {
            assert(s[i + 1] == e[1]);
        }
        lemma_read_cstring(s, i + e.len(), rest, acc.push(c));
        assert(acc.push(c) + rest =~= acc + t);
    }
}

proof fn lemma_read_value(s: Seq<char>, i: int, m: ValueModel)
    requires
        in_wire_form(m),
        occurs_at(s, i, wire(m)),
        ends_value(s, i + wire(m).len()),
    ensures
        value_at(s, i) == Some((m, i + wire(m).len())),
    decreases m,
{
    match m {
        ValueModel::Str(t) => {
            assert(wire(m) =~= seq!['"'] + (escape(t) + seq!['"']));
            lemma_occurs_split(s, i, seq!['"'], escape(t) + seq!['"']);
            assert(seq!['"'][0] == '"');
            assert(s[i + 0] == '"');
            lemma_read_cstring(s, i + 1, t, Seq::empty());
            assert(Seq::<char>::empty() + t =~= t);
        },
        ValueModel::List(items) => {
            assert(s[i + 0] == wire(m)[0]);
            if items.len() == 0 {
                assert(wire(m) =~= seq!['[', ']']);
                assert(s[i + 1] == wire(m)[1]);
                assert(items =~= Seq::<ValueModel>::empty());
            } else {
                assert(wire(m) =~= seq!['['] + (wire_items(items) + seq![']']));
                lemma_occurs_split(s, i, seq!['['], wire_items(items) + seq![']']);
                lemma_first_of_items(items);
                assert(wire(m)[0] == '[');
                assert(s[i + 1 + 0] == (wire_items(items) + seq![']'])[0]);
                lemma_first_of_wire(items[0]);
                assert((wire_items(items) + seq![']'])[0] == wire_items(items)[0]);
                assert(s[i + 1] != ']');
                assert(decreases_to!(m => m->List_0));
                lemma_read_items(s, i + 1, items, Seq::empty());
                assert(Seq::<ValueModel>::empty() + items =~= items);
            }
        },
        ValueModel::Object(es) => {
            assert(s[i + 0] == wire(m)[0]);
            if es.len() == 0 {
                assert(wire(m) =~= seq!['{', '}']);
                assert(s[i + 1] == wire(m)[1]);
                assert(es =~= Seq::<(Seq<char>, ValueModel)>::empty());
            } else {
                assert(wire(m) =~= seq!['{'] + (wire_entries(es) + seq!['}']));
                lemma_occurs_split(s, i, seq!['{'], wire_entries(es) + seq!['}']);
                lemma_first_of_entries(es);
                assert(wire(m)[0] == '{');
                assert(s[i + 1 + 0] == (wire_entries(es) + seq!['}'])[0]);
                assert(is_token(es[0].0));
                assert(!is_delimiter(es[0].0[0]));
                assert((wire_entries(es) + seq!['}'])[0] == wire_entries(es)[0]);
                assert(s[i + 1] != '}');
                assert(decreases_to!(m => m->Object_0));
                lemma_read_entries(s, i + 1, es, Seq::empty());
                assert(Seq::<(Seq<char>, ValueModel)>::empty() + es =~= es);
            }
        },
        _ => {
            assert(!in_wire_form(m));
        },
    }
}

/// The written form of a value that reading can produce is not empty, and its first
/// character is a quote or an opening bracket.
proof fn lemma_first_of_wire(m: ValueModel)
    requires
        in_wire_form(m),
    ensures
        wire(m).len() > 0,
        wire(m)[0] == '"' || wire(m)[0] == '[' || wire(m)[0] == '{',
{
    match m {
        ValueModel::List(items) => {
            assert((seq!['['] + wire_items(items) + seq![']'])[0] == '[');
        },
        ValueModel::Object(es) => {
            assert((seq!['{'] + wire_entries(es) + seq!['}'])[0] == '{');
        },
        ValueModel::Str(t) => {
            assert((seq!['"'] + escape(t) + seq!['"'])[0] == '"');
        },
        _ => {},
    }
}

proof fn lemma_first_of_items(items: Seq<ValueModel>)
    requires
        items.len() > 0,
        in_wire_form(items[0]),
    ensures
        wire_items(items).len() > 0,
        wire_items(items)[0] == wire(items[0])[0],
{
    lemma_first_of_wire(items[0]);
    if items.len() >= 2 {
        lemma_wire_items_front(items);
    }
}

proof fn lemma_first_of_entries(es: EntriesModel)
    requires
        es.len() > 0,
        is_token(es[0].0),
    ensures
        wire_entries(es).len() > 0,
        wire_entries(es)[0] == es[0].0[0],
{
    if es.len() >= 2 {
        lemma_wire_entries_front(es);
    }
}

proof fn lemma_read_items(s: Seq<char>, i: int, items: Seq<ValueModel>, acc: Seq<ValueModel>)
    requires
        items.len() > 0,
        forall|k: int| 0 <= k < items.len() ==> in_wire_form(#[trigger] items[k]),
        occurs_at(s, i, wire_items(items) + seq![']']),
    ensures
        items_at(s, i, acc) == Some((ValueModel::List(acc + items), i + wire_items(items).len() + 1)),
    decreases items,
{
    let m0 = items[0];
    let w0 = wire(m0);
    let rest = items.subrange(1, items.len() as int);
    let tail: Seq<char> = if items.len() == 1 {
        seq![']']
    } else {
        seq![','] + (wire_items(rest) + seq![']'])
    };
    if items.len() == 1 {
        assert(wire_items(items) + seq![']'] =~= w0 + tail);
    } else {
        lemma_wire_items_front(items);
        assert(items.drop_first() =~= rest);
        assert(wire_items(items) + seq![']'] =~= w0 + tail);
    }
    lemma_occurs_split(s, i, w0, tail);
    let j = i + w0.len();
    assert(s[j + 0] == tail[0]);
    lemma_first_of_wire(m0);
    assert(s[i + 0] == w0[0]);
    // the element carries no key: it starts with a delimiter
    assert(item_start(s, i) == i);
    lemma_read_value(s, i, m0);
    if items.len() == 1 {
        assert(acc.push(m0) =~= acc + items);
    } else {
        lemma_occurs_split(s, j, seq![','], wire_items(rest) + seq![']']);
        assert forall|k: int| 0 <= k < rest.len() implies in_wire_form(#[trigger] rest[k]) by {
            assert(rest[k] == items[k + 1]);
        }
        lemma_read_items(s, j + 1, rest, acc.push(m0));
        assert(acc.push(m0) + rest =~= acc + items);
        assert(wire_items(items).len() == w0.len() + 1 + wire_items(rest).len());
    }
}

proof fn lemma_read_entries(s: Seq<char>, i: int, es: EntriesModel, acc: EntriesModel)
    requires
        es.len() > 0,
        forall|k: int| 0 <= k < es.len() ==> is_token(#[trigger] es[k].0) && in_wire_form(es[k].1),
        keys_unique(es),
        forall|a: int, b: int|
            0 <= a < acc.len() && 0 <= b < es.len() ==> (#[trigger] acc[a]).0 != (#[trigger] es[b]).0,
        occurs_at(s, i, wire_entries(es) + seq!['}']),
    ensures
        entries_at(s, i, acc) == Some((ValueModel::Object(acc + es), i + wire_entries(es).len() + 1)),
    decreases es,
{
    let e0 = es[0];
    let key = e0.0;
    let m0 = e0.1;
    let w0 = wire(m0);
    let rest = es.subrange(1, es.len() as int);
    let tail: Seq<char> = if es.len() == 1 {
        seq!['}']
    } else {
        seq![','] + (wire_entries(rest) + seq!['}'])
    };
    if es.len() == 1 {
        assert(wire_entries(es) + seq!['}'] =~= key + (seq!['='] + (w0 + tail)));
    } else {
        lemma_wire_entries_front(es);
        assert(es.drop_first() =~= rest);
        assert(wire_entries(es) + seq!['}'] =~= key + (seq!['='] + (w0 + tail)));
    }
    assert(is_token(es[0].0));
    lemma_occurs_split(s, i, key, seq!['='] + (w0 + tail));
    let k = i + key.len();
    lemma_occurs_split(s, k, seq!['='], w0 + tail);
    assert(seq!['='][0] == '=');
    assert(s[k + 0] == '=');
    lemma_read_token(s, i, key);
    lemma_occurs_split(s, k + 1, w0, tail);
    let j = k + 1 + w0.len();
    assert(s[j + 0] == tail[0]);
    lemma_first_of_wire(m0);
    assert(s.subrange(i, k) =~= key);
    assert(!has_key(acc, key)) by {
        assert forall|a: int| 0 <= a < acc.len() implies (#[trigger] acc[a]).0 != key by {
            assert(acc[a].0 != es[0].0);
        }
    }
    assert(decreases_to!(es => es[0]));
    assert(decreases_to!(es[0] => es[0].1));
    lemma_read_value(s, k + 1, m0);
    if es.len() == 1 {
        assert(acc.push((key, m0)) =~= acc + es);
    } else {
        lemma_occurs_split(s, j, seq![','], wire_entries(rest) + seq!['}']);
        assert forall|n: int| 0 <= n < rest.len() implies is_token(#[trigger] rest[n].0) && in_wire_form(
            rest[n].1,
        ) by {
            assert(rest[n] == es[n + 1]);
        }
        let acc2 = acc.push((key, m0));
        assert forall|a: int, b: int| 0 <= a < b < rest.len() implies (#[trigger] rest[a]).0 != (
        #[trigger] rest[b]).0 by {
            assert(rest[a] == es[a + 1] && rest[b] == es[b + 1]);
        }
        assert forall|a: int, b: int| 0 <= a < acc2.len() && 0 <= b < rest.len() implies (
        #[trigger] acc2[a]).0 != (#[trigger] rest[b]).0 by {
            assert(rest[b] == es[b + 1]);
            if a < acc.len() {
                assert(acc2[a] == acc[a]);
            } else {
                assert(acc2[a] == es[0]);
            }
        }
        lemma_read_entries(s, j + 1, rest, acc2);
        assert(acc.push((key, m0)) + rest =~= acc + es);
        assert(wire_entries(es).len() == key.len() + 1 + w0.len() + 1 + wire_entries(rest).len());
    }
}

/// Writing a value and reading it back gives the same value: for every value that reading
/// can produce, its written form reads as that value and is consumed whole.
pub proof fn lemma_value_round_trip(m: ValueModel)
    requires
        in_wire_form(m),
    ensures
        value_at(wire(m), 0) == Some((m, wire(m).len() as int)),
{
    let s = wire(m);
    assert(occurs_at(s, 0, s));
    lemma_read_value(s, 0, m);
}

/// A quoted parameter reads back as its text: the closing quote is found just at its end.
pub proof fn lemma_quote_round_trip(t: Seq<char>)
    ensures
        quote(t)[0] == '"',
        cstring_at(quote(t), 1, Seq::empty()) == Some((t, quote(t).len() as int)),
{
    let s = quote(t);
    assert(s =~= seq!['"'] + (escape(t) + seq!['"']));
    assert(occurs_at(s, 0, s));
    lemma_occurs_split(s, 0, seq!['"'], escape(t) + seq!['"']);
    lemma_read_cstring(s, 1, t, Seq::empty());
    assert(Seq::<char>::empty() + t =~= t);
}

proof fn lemma_occurs_trans(s: Seq<char>, i: int, a: Seq<char>, j: int, b: Seq<char>)
    requires
        occurs_at(s, i, a),
        occurs_at(a, j, b),
    ensures
        occurs_at(s, i + j, b),
{
    assert forall|k: int| 0 <= k < b.len() implies s[i + j + k] == #[trigger] b[k] by {
        assert(a[j + k] == b[k]);
        assert(s[i + (j + k)] == a[j + k]);
    }
}

proof fn lemma_params_prefix(ps: Seq<ValueModel>, j: int)
    requires
        0 <= j <= ps.len(),
    ensures
        occurs_at(params_line(ps), 0, params_line(ps.subrange(0, j))),
    decreases ps.len(),
{
    if j == ps.len() {
        assert(ps.subrange(0, j) =~= ps);
    } else {
        let init = ps.drop_last();
        lemma_params_prefix(init, j);
        assert(init.subrange(0, j) =~= ps.subrange(0, j));
        let whole = params_line(ps);
        assert(whole =~= params_line(init) + (seq![' '] + quote(param_text(ps.last()))));
        lemma_occurs_split(whole, 0, params_line(init), seq![' '] + quote(param_text(ps.last())));
        lemma_occurs_trans(whole, 0, params_line(init), 0, params_line(ps.subrange(0, j)));
    }
}

/// Where the quoted text of the `k`-th parameter starts in the line of a command.
pub open spec fn param_start(c: CommandModel, k: int) -> int {
    (1 + c.operation.len() + params_line(c.parameters.subrange(0, k)).len() + 1) as int
}

/// Sending a command and reading its parameters back gives each parameter again: in the
/// command's line the `k`-th parameter follows a space as a quoted string that reads as the
/// parameter's text, and a parameter other than a string, of a form that reading can
/// produce, reads from that text as the very same value.
#[verifier::rlimit(40)]
pub proof fn lemma_command_round_trip(c: CommandModel, k: int)
    requires
        0 <= k < c.parameters.len(),
    ensures
        command_line(c)[param_start(c, k) - 1] == ' ',
        command_line(c)[param_start(c, k)] == '"',
        cstring_at(command_line(c), param_start(c, k) + 1, Seq::empty()) == Some(
            (
                param_text(c.parameters[k]),
                param_start(c, k) + quote(param_text(c.parameters[k])).len(),
            ),
        ),
        in_wire_form(c.parameters[k]) && !(c.parameters[k] is Str) ==> value_at(
            param_text(c.parameters[k]),
            0,
        ) == Some((c.parameters[k], param_text(c.parameters[k]).len() as int)),
{
    let ps = c.parameters;
    let line = command_line(c);
    let t = param_text(ps[k]);
    let head = seq!['-'] + c.operation;
    let before = params_line(ps.subrange(0, k));
    let upto = params_line(ps.subrange(0, k + 1));
    assert(ps.subrange(0, k + 1).drop_last() =~= ps.subrange(0, k));
    assert(upto =~= before + (seq![' '] + (seq!['"'] + (escape(t) + seq!['"']))));
    let rest = options_line(c.options) + seq!['\n'];
    assert(line =~= head + (params_line(ps) + rest));
    assert(occurs_at(line, 0, line));
    lemma_occurs_split(line, 0, head, params_line(ps) + rest);
    lemma_occurs_split(line, head.len() as int, params_line(ps), rest);
    lemma_params_prefix(ps, k + 1);
    lemma_occurs_trans(line, head.len() as int, params_line(ps), 0, upto);
    let p = (head.len() + before.len()) as int;
    let quoted = seq!['"'] + (escape(t) + seq!['"']);
    lemma_occurs_split(line, head.len() as int, before, seq![' '] + quoted);
    lemma_occurs_split(line, p, seq![' '], quoted);
    lemma_occurs_split(line, p + 1, seq!['"'], escape(t) + seq!['"']);
    assert(seq![' '][0] == ' ');
    assert(seq!['"'][0] == '"');
    assert(line[p + 0] == ' ');
    assert(line[p + 1 + 0] == '"');
    assert(param_start(c, k) == p + 1);
    lemma_read_cstring(line, p + 2, t, Seq::empty());
    assert(Seq::<char>::empty() + t =~= t);
    assert(quote(t).len() == escape(t).len() + 2);
    if in_wire_form(ps[k]) && !(ps[k] is Str) {
        lemma_value_round_trip(ps[k]);
    }
}

} // verus!
