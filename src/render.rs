//! JSON text: quoted strings, record objects and the ledger file.
use vstd::prelude::*;
use crate::ledger::{
    keys_unique, map_of, opt_view, sorted_desc, EntryView, Ledger, RecordView, VersionRecord,
};
use crate::text::{chars_of, push_all, string_from_chars};

verus! {

pub open spec fn hex_chars() -> Seq<char> {
    seq!['0', '1', '2', '3', '4', '5', '6', '7', '8', '9', 'a', 'b', 'c', 'd', 'e', 'f']
}

/// How one character stands inside a JSON string: quote, backslash and the
/// control characters are escaped, the short forms where JSON has them.
pub open spec fn escape_char(c: char) -> Seq<char> {
    if c == '"' {
        seq!['\\', '"']
    } else if c == '\\' {
        seq!['\\', '\\']
    } else if c == '\n' {
        seq!['\\', 'n']
    } else if c == '\r' {
        seq!['\\', 'r']
    } else if c == '\t' {
        seq!['\\', 't']
    } else if c == '\x08' {
        seq!['\\', 'b']
    } else if c == '\x0c' {
        seq!['\\', 'f']
    } else if (c as u32) < 0x20 {
        seq!['\\', 'u', '0', '0', hex_chars()[((c as u32) / 16) as int], hex_chars()[((c as u32) % 16) as int]]
    } else {
        seq![c]
    }
}

pub open spec fn escaped(s: Seq<char>) -> Seq<char>
    decreases s.len(),
{
    if s.len() == 0 {
        Seq::<char>::empty()
    } else {
        escaped(s.drop_last()) + escape_char(s.last())
    }
}

/// `s` as a JSON string literal.
pub open spec fn json_string(s: Seq<char>) -> Seq<char> {
    seq!['"'] + escaped(s) + seq!['"']
}

/// Appends `s` as a JSON string literal.
pub fn push_json_string(out: &mut Vec<char>, s: &str)
    ensures
        final(out)@ == old(out)@ + json_string(s@),
{
    let cs = chars_of(s);
    let hex = vec!['0', '1', '2', '3', '4', '5', '6', '7', '8', '9', 'a', 'b', 'c', 'd', 'e', 'f'];
    assert(hex@ == hex_chars());
    out.push('"');
    let ghost start = out@;
    let mut i: usize = 0;
    proof {
        assert(cs@.take(0) =~= Seq::<char>::empty());
        assert(out@ =~= start + escaped(cs@.take(0)));
    }
    while i < cs.len()
        invariant
            i <= cs@.len(),
            hex@ == hex_chars(),
            out@ == start + escaped(cs@.take(i as int)),
        decreases cs.len() - i,
    {
        let c = cs[i];
        let ghost before = out@;
        if c == '"' {
            out.push('\\');
            out.push('"');
        } else if c == '\\' {
            out.push('\\');
            out.push('\\');
        } else if c == '\n' {
            out.push('\\');
            out.push('n');
        } else if c == '\r' {
            out.push('\\');
            out.push('r');
        } else if c == '\t' {
            out.push('\\');
            out.push('t');
        } else if c == '\x08' {
            out.push('\\');
            out.push('b');
        } else if c == '\x0c' {
            out.push('\\');
            out.push('f');
        } else if (c as u32) < 0x20 {
            let v = c as u32;
            out.push('\\');
            out.push('u');
            out.push('0');
            out.push('0');
            out.push(hex[(v / 16) as usize]);
            out.push(hex[(v % 16) as usize]);
        } else {
            out.push(c);
        }
        proof {
            assert(out@ =~= before + escape_char(c));
            let t = cs@.take(i as int + 1);
            assert(t.drop_last() =~= cs@.take(i as int));
            assert(t.last() == c);
        }
        i += 1;
    }
    proof {
        assert(cs@.take(cs@.len() as int) =~= cs@);
    }
    out.push('"');
    assert(out@ =~= old(out)@ + json_string(s@));
}

/// Appends the characters of a literal.
pub(crate) fn push_str(out: &mut Vec<char>, s: &str)
    ensures
        final(out)@ == old(out)@ + s@,
{
    let cs = chars_of(s);
    push_all(out, &cs);
}

pub type FieldView = (Seq<char>, Seq<char>);

pub open spec fn opt_field(name: Seq<char>, o: Option<Seq<char>>) -> Seq<FieldView> {
    match o {
        Some(v) => seq![(name, v)],
        None => Seq::<FieldView>::empty(),
    }
}

/// The fields of a record's JSON object, by name in alphabetical order;
/// absent optional fields are left out.
pub open spec fn record_fields(r: RecordView) -> Seq<FieldView> {
    seq![("buildDate"@, r.build_date)] + opt_field("buildVersion"@, r.build_version) + seq![
        ("clientVersion"@, r.client_version),
    ] + opt_field("webPlayer"@, r.web_player)
}

/// One field: indented on a line of its own where `pretty`, else compact.
pub open spec fn field_text(f: FieldView, pretty: bool) -> Seq<char> {
    if pretty {
        "    "@ + json_string(f.0) + ": "@ + json_string(f.1)
    } else {
        json_string(f.0) + ":"@ + json_string(f.1)
    }
}

pub open spec fn fields_text(fs: Seq<FieldView>, pretty: bool) -> Seq<char>
    decreases fs.len(),
{
    if fs.len() == 0 {
        Seq::<char>::empty()
    } else {
        let sep = if fs.len() == 1 {
            Seq::<char>::empty()
        } else if pretty {
            ",\n"@
        } else {
            ","@
        };
        fields_text(fs.drop_last(), pretty) + sep + field_text(fs.last(), pretty)
    }
}

/// A record as a JSON object: pretty, as nested one level in the ledger
/// file, or compact.
pub open spec fn record_text(r: RecordView, pretty: bool) -> Seq<char> {
    if pretty {
        "{\n"@ + fields_text(record_fields(r), true) + "\n  }"@
    } else {
        "{"@ + fields_text(record_fields(r), false) + "}"@
    }
}

/// The entries of the ledger file, one per key, separated by commas.
pub open spec fn entries_text(es: Seq<EntryView>) -> Seq<char>
    decreases es.len(),
{
    if es.len() == 0 {
        Seq::<char>::empty()
    } else {
        let sep = if es.len() == 1 {
            Seq::<char>::empty()
        } else {
            ",\n"@
        };
        entries_text(es.drop_last()) + sep + "  "@ + json_string(es.last().0) + ": "@ + record_text(
            es.last().1,
            true,
        )
    }
}

/// The ledger file: one JSON object, two spaces of indentation per level.
pub open spec fn ledger_text(es: Seq<EntryView>) -> Seq<char> {
    if es.len() == 0 {
        "{\n"@ + "}"@
    } else {
        "{\n"@ + entries_text(es) + "\n}"@
    }
}

/// What stands before a field: nothing before the first, else a comma.
pub open spec fn field_sep(first: bool, pretty: bool) -> Seq<char> {
    if first {
        Seq::<char>::empty()
    } else if pretty {
        ",\n"@
    } else {
        ","@
    }
}

proof fn lemma_fields_push(fs: Seq<FieldView>, f: FieldView, pretty: bool)
    ensures
        fields_text(fs.push(f), pretty) == fields_text(fs, pretty) + field_sep(fs.len() == 0, pretty)
            + field_text(f, pretty),
{
    let n = fs.push(f);
    assert(n.drop_last() =~= fs);
    if fs.len() == 0 {
        assert(fields_text(fs, pretty) == Seq::<char>::empty());
    }
}

fn push_field(out: &mut Vec<char>, name: &str, value: &String, first: bool, pretty: bool)
    ensures
        final(out)@ == old(out)@ + field_sep(first, pretty) + field_text((name@, value@), pretty),
{
    let ghost o = out@;
    if !first {
        if pretty {
            push_str(out, ",\n");
        } else {
            push_str(out, ",");
        }
    }
    let ghost o1 = out@;
    assert(o1 == o + field_sep(first, pretty));
    if pretty {
        push_str(out, "    ");
        push_json_string(out, name);
        push_str(out, ": ");
    } else {
        push_json_string(out, name);
        push_str(out, ":");
    }
    push_json_string(out, value.as_str());
    assert(out@ =~= o1 + field_text((name@, value@), pretty));
}

/// Appends an optional field where it is present.
fn push_opt_field(
    out: &mut Vec<char>,
    name: &str,
    value: &Option<String>,
    pretty: bool,
    acc: Ghost<Seq<FieldView>>,
    start: Ghost<Seq<char>>,
)
    requires
        acc@.len() > 0,
        old(out)@ == start@ + fields_text(acc@, pretty),
    ensures
        final(out)@ == start@ + fields_text(acc@ + opt_field(name@, opt_view(*value)), pretty),
{
    match value {
        Some(v) => {
            push_field(out, name, v, false, pretty);
            proof {
                lemma_fields_push(acc@, (name@, v@), pretty);
                assert(acc@ + opt_field(name@, opt_view(*value)) =~= acc@.push((name@, v@)));
            }
        },
        None => {
            assert(acc@ + opt_field(name@, opt_view(*value)) =~= acc@);
        },
    }
}

/// Appends a record as a JSON object.
pub fn push_record(out: &mut Vec<char>, r: &VersionRecord, pretty: bool)
    ensures
        final(out)@ == old(out)@ + record_text(r@, pretty),
{
    let ghost o = out@;
    if pretty {
        push_str(out, "{\n");
    } else {
        push_str(out, "{");
    }
    let ghost o1 = out@;
    push_field(out, "buildDate", &r.build_date, true, pretty);
    let ghost f1: Seq<FieldView> = seq![("buildDate"@, r.build_date@)];
    proof {
        lemma_fields_push(Seq::<FieldView>::empty(), f1[0], pretty);
        assert(Seq::<FieldView>::empty().push(f1[0]) =~= f1);
        assert(out@ =~= o1 + fields_text(f1, pretty));
    }
    push_opt_field(out, "buildVersion", &r.build_version, pretty, Ghost(f1), Ghost(o1));
    let ghost f2 = f1 + opt_field("buildVersion"@, opt_view(r.build_version));
    let ghost cv: FieldView = ("clientVersion"@, r.client_version@);
    push_field(out, "clientVersion", &r.client_version, false, pretty);
    let ghost f3 = f2.push(cv);
    proof {
        assert(f2.len() > 0);
        lemma_fields_push(f2, cv, pretty);
        assert(out@ =~= o1 + fields_text(f3, pretty));
    }
    push_opt_field(out, "webPlayer", &r.web_player, pretty, Ghost(f3), Ghost(o1));
    proof {
        assert(f3 + opt_field("webPlayer"@, opt_view(r.web_player)) =~= record_fields(r@));
    }
    if pretty {
        push_str(out, "\n  }");
    } else {
        push_str(out, "}");
    }
    assert(out@ =~= o + record_text(r@, pretty));
}

impl Ledger {
    /// The ledger file's text: the entries in the ledger's order, each key
    /// with its record as a nested object.
    pub fn to_json_text(&self) -> (r: String)
        requires
            self.wf(),
        ensures
            exists|es: Seq<EntryView>|
                keys_unique(es) && sorted_desc(es) && map_of(es) == self@ && r@ == ledger_text(es),
    {
        let sorted = self.sorted_entries();
        let ghost es = crate::ledger::entry_views(sorted@);
        let mut out: Vec<char> = Vec::new();
        push_str(&mut out, "{\n");
        let ghost o1 = out@;
        let mut i: usize = 0;
        proof {
            assert(es.take(0) =~= Seq::<EntryView>::empty());
            assert(out@ =~= o1 + entries_text(es.take(0)));
        }
        while i < sorted.len()
            invariant
                i <= sorted@.len(),
                es == crate::ledger::entry_views(sorted@),
                out@ == o1 + entries_text(es.take(i as int)),
            decreases sorted.len() - i,
        {
            let ghost before = out@;
            if i > 0 {
                push_str(&mut out, ",\n");
            }
            push_str(&mut out, "  ");
            push_json_string(&mut out, sorted[i].0.as_str());
            push_str(&mut out, ": ");
            push_record(&mut out, &sorted[i].1, true);
            proof {
                let t = es.take(i as int + 1);
                assert(t.drop_last() =~= es.take(i as int));
                assert(t.last() == es[i as int]);
                assert(out@ =~= o1 + entries_text(t));
            }
            i += 1;
        }
        proof {
            assert(es.take(es.len() as int) =~= es);
        }
        if sorted.len() > 0 {
            push_str(&mut out, "\n}");
        } else {
            push_str(&mut out, "}");
        }
        proof {
            assert(out@ =~= ledger_text(es));
        }
        string_from_chars(&out)
    }
}

} // verus!
