use vstd::prelude::*;

use crate::extract::ExtractionResult;

verus! {

/// One row of the output table: item code, source file name, status.
#[verifier::ext_equal]
pub struct TableRow {
    pub code: Seq<char>,
    pub name: Seq<char>,
    pub status: Seq<char>,
}

/// A field must be quoted when it holds the delimiter, a quote, or a line
/// break.
pub open spec fn needs_quoting(f: Seq<char>) -> bool {
    f.contains(',') || f.contains('"') || f.contains('\n') || f.contains('\r')
}

/// `f` with every double quote doubled.
pub open spec fn escaped(f: Seq<char>) -> Seq<char>
    decreases f.len(),
{
    if f.len() == 0 {
        Seq::empty()
    } else {
        (if f[0] == '"' {
            seq!['"', '"']
        } else {
            seq![f[0]]
        }) + escaped(f.drop_first())
    }
}

/// The encoding of one field: quoted with doubled quotes when it needs
/// quoting, the field itself otherwise.
pub open spec fn enc_field(f: Seq<char>) -> Seq<char> {
    if needs_quoting(f) {
        seq!['"'] + escaped(f) + seq!['"']
    } else {
        f
    }
}

/// One encoded row: three encoded fields, comma-separated and
/// newline-terminated.
pub open spec fn enc_row(r: TableRow) -> Seq<char> {
    enc_field(r.code) + seq![','] + enc_field(r.name) + seq![','] + enc_field(r.status)
        + seq!['\n']
}

/// The header row's fields: the three column names, in fixed order.
pub open spec fn header_row() -> TableRow {
    TableRow { code: "itemCode"@, name: "filename"@, status: "status"@ }
}

/// The encoded rows of `rows`, concatenated in order.
pub open spec fn render_rows(rows: Seq<TableRow>) -> Seq<char>
    decreases rows.len(),
{
    if rows.len() == 0 {
        Seq::empty()
    } else {
        enc_row(rows[0]) + render_rows(rows.drop_first())
    }
}

/// The whole table: the header row, then one row per record, in order.
pub open spec fn table(rows: Seq<TableRow>) -> Seq<char> {
    render_rows(seq![header_row()] + rows)
}

/// The table row a record stands for.
pub open spec fn row_of(r: ExtractionResult) -> TableRow {
    TableRow { code: r.item_code@, name: r.source_name@, status: r.status@ }
}

/// The table rows of a record list, in order.
pub open spec fn rows_of(rs: Seq<ExtractionResult>) -> Seq<TableRow> {
    rs.map_values(|r: ExtractionResult| row_of(r))
}

/// Appending one row to a row list appends its encoding to the rendering.
proof fn lemma_render_rows_push(rows: Seq<TableRow>, r: TableRow)
    ensures
        render_rows(rows.push(r)) == render_rows(rows) + enc_row(r),
    decreases rows.len(),
{
    if rows.len() == 0 {
        assert(rows.push(r)[0] == r);
        assert(rows.push(r).drop_first() =~= Seq::<TableRow>::empty());
        assert(render_rows(Seq::<TableRow>::empty()) == Seq::<char>::empty());
        assert(render_rows(rows) == Seq::<char>::empty());
        assert(render_rows(rows.push(r)) =~= render_rows(rows) + enc_row(r));
    } else {
        lemma_render_rows_push(rows.drop_first(), r);
        assert(rows.push(r)[0] == rows[0]);
        assert(rows.push(r).drop_first() =~= rows.drop_first().push(r));
        assert(render_rows(rows.push(r)) =~= render_rows(rows) + enc_row(r));
    }
}

/// Appending one character appends its escape to the escaping.
proof fn lemma_escaped_push(u: Seq<char>, c: char)
    ensures
        escaped(u.push(c)) == escaped(u) + (if c == '"' {
            seq!['"', '"']
        } else {
            seq![c]
        }),
    decreases u.len(),
{
    if u.len() == 0 {
        assert(u.push(c)[0] == c);
        assert(u.push(c).drop_first() =~= Seq::<char>::empty());
        assert(escaped(Seq::<char>::empty()) == Seq::<char>::empty());
        assert(escaped(u) == Seq::<char>::empty());
        assert(escaped(u.push(c)) =~= escaped(u) + (if c == '"' {
            seq!['"', '"']
        } else {
            seq![c]
        }));
    } else {
        lemma_escaped_push(u.drop_first(), c);
        assert(u.push(c)[0] == u[0]);
        assert(u.push(c).drop_first() =~= u.drop_first().push(c));
        assert(escaped(u.push(c)) =~= escaped(u) + (if c == '"' {
            seq!['"', '"']
        } else {
            seq![c]
        }));
    }
}

/// Decides whether a field needs quoting.
fn field_needs_quoting(f: &String) -> (r: bool)
    ensures
        r == needs_quoting(f@),
{
    let n = f.as_str().unicode_len();
    let mut i: usize = 0;
    let mut needs = false;
    while i < n
        invariant
            i <= n,
            n == f@.len(),
            needs ==> needs_quoting(f@),
            !needs ==> forall|k: int|
                0 <= k < i ==> !(f@[k] == ',' || f@[k] == '"' || f@[k] == '\n' || f@[k]
                    == '\r'),
        decreases n - i,
    {
        let c = f.as_str().get_char(i);
        if c == ',' || c == '"' || c == '\n' || c == '\r' {
            proof {
                assert(f@[i as int] == c);
                if c == ',' {
                    assert(f@.contains(','));
                } else if c == '"' {
                    assert(f@.contains('"'));
                } else if c == '\n' {
                    assert(f@.contains('\n'));
                } else {
                    assert(f@.contains('\r'));
                }
            }
            needs = true;
        }
        i += 1;
    }
    proof {
        if !needs {
            assert(!f@.contains(',')) by {
                if f@.contains(',') {
                    let k = choose|k: int| 0 <= k < f@.len() && f@[k] == ',';
                    assert(false);
                }
            }
            assert(!f@.contains('"')) by {
                if f@.contains('"') {
                    let k = choose|k: int| 0 <= k < f@.len() && f@[k] == '"';
                    assert(false);
                }
            }
            assert(!f@.contains('\n')) by {
                if f@.contains('\n') {
                    let k = choose|k: int| 0 <= k < f@.len() && f@[k] == '\n';
                    assert(false);
                }
            }
            assert(!f@.contains('\r')) by {
                if f@.contains('\r') {
                    let k = choose|k: int| 0 <= k < f@.len() && f@[k] == '\r';
                    assert(false);
                }
            }
        }
    }
    needs
}

/// Appends the encoding of one field to `out`.
fn push_field(f: &String, out: &mut Vec<char>)
    ensures
        final(out)@ == old(out)@ + enc_field(f@),
{
    let needs = field_needs_quoting(f);
    let n = f.as_str().unicode_len();
    if !needs {
        let mut i: usize = 0;
        while i < n
            invariant
                i <= n,
                n == f@.len(),
                !needs_quoting(f@),
                out@ == old(out)@ + f@.take(i as int),
            decreases n - i,
        {
            let c = f.as_str().get_char(i);
            out.push(c);
            proof {
                assert(f@.take(i as int + 1) =~= f@.take(i as int).push(f@[i as int]));
                assert(out@ =~= old(out)@ + f@.take(i as int + 1));
            }
            i += 1;
        }
        proof {
            assert(f@.take(n as int) =~= f@);
        }
    } else {
        out.push('"');
        proof {
            assert(f@.take(0) =~= Seq::<char>::empty());
            assert(escaped(Seq::<char>::empty()) == Seq::<char>::empty());
            assert(out@ =~= old(out)@ + seq!['"'] + escaped(f@.take(0)));
        }
        let mut i: usize = 0;
        while i < n
            invariant
                i <= n,
                n == f@.len(),
                needs_quoting(f@),
                out@ == old(out)@ + seq!['"'] + escaped(f@.take(i as int)),
            decreases n - i,
        {
            let c = f.as_str().get_char(i);
            if c == '"' {
                out.push('"');
                out.push('"');
            } else {
                out.push(c);
            }
            proof {
                lemma_escaped_push(f@.take(i as int), f@[i as int]);
                assert(f@.take(i as int + 1) =~= f@.take(i as int).push(f@[i as int]));
                assert(out@ =~= old(out)@ + seq!['"'] + escaped(f@.take(i as int + 1)));
            }
            i += 1;
        }
        out.push('"');
        proof {
            assert(f@.take(n as int) =~= f@);
            assert(out@ =~= old(out)@ + (seq!['"'] + escaped(f@) + seq!['"']));
        }
    }
}

/// Appends one encoded row, given its three fields.
fn push_row(code: &String, name: &String, status: &String, out: &mut Vec<char>)
    ensures
        final(out)@ == old(out)@ + enc_row(
            TableRow { code: code@, name: name@, status: status@ },
        ),
{
    push_field(code, out);
    out.push(',');
    push_field(name, out);
    out.push(',');
    push_field(status, out);
    out.push('\n');
    proof {
        assert(out@ =~= old(out)@ + enc_row(
            TableRow { code: code@, name: name@, status: status@ },
        ));
    }
}

/// Renders the whole output table: the fixed header row, then one row per
/// record in input order, each field quoted exactly when it needs to be.
pub fn render_table(records: &Vec<ExtractionResult>) -> (out: Vec<char>)
    ensures
        out@ == table(rows_of(records@)),
{
    let mut out: Vec<char> = Vec::new();
    let h_code = String::from_str("itemCode");
    let h_name = String::from_str("filename");
    let h_status = String::from_str("status");
    push_row(&h_code, &h_name, &h_status, &mut out);
    proof {
        assert(TableRow { code: h_code@, name: h_name@, status: h_status@ } =~= header_row());
        assert(seq![header_row()].drop_first() =~= Seq::<TableRow>::empty());
        assert(render_rows(Seq::<TableRow>::empty()) == Seq::<char>::empty());
        assert(render_rows(seq![header_row()]) =~= enc_row(header_row()));
        assert(out@ =~= render_rows(seq![header_row()] + rows_of(records@).take(0)));
    }
    let mut i: usize = 0;
    while i < records.len()
        invariant
            i <= records.len(),
            out@ == render_rows(seq![header_row()] + rows_of(records@).take(i as int)),
        decreases records.len() - i,
    {
        let rec = &records[i];
        push_row(&rec.item_code, &rec.source_name, &rec.status, &mut out);
        proof {
            let rows = rows_of(records@);
            assert(rows[i as int] == row_of(records@[i as int]));
            assert(TableRow {
                code: rec.item_code@,
                name: rec.source_name@,
                status: rec.status@,
            } =~= rows[i as int]);
            lemma_render_rows_push(seq![header_row()] + rows.take(i as int), rows[i as int]);
            assert((seq![header_row()] + rows.take(i as int)).push(rows[i as int]) =~= seq![
                header_row(),
            ] + rows.take(i as int + 1));
            assert(out@ =~= render_rows(seq![header_row()] + rows.take(i as int + 1)));
        }
        i += 1;
    }
    proof {
        assert(rows_of(records@).take(records@.len() as int) =~= rows_of(records@));
    }
    out
}

/// Relies on String's FromIterator: collecting characters yields the string
/// of exactly those characters, in order.
#[verifier::external_body]
pub(crate) fn chars_to_string(v: &Vec<char>) -> (s: String)
    ensures
        s@ == v@,
{
    v.iter().collect()
}

/// The rendered table as one string, ready to be written out.
pub fn table_string(records: &Vec<ExtractionResult>) -> (s: String)
    ensures
        s@ == table(rows_of(records@)),
{
    let out = render_table(records);
    chars_to_string(&out)
}

/// Reads one unquoted field: the characters up to the next delimiter or line
/// break, and the remainder from that point on.
pub open spec fn parse_bare(s: Seq<char>) -> (Seq<char>, Seq<char>)
    decreases s.len(),
{
    if s.len() == 0 {
        (Seq::empty(), Seq::empty())
    } else if s[0] == ',' || s[0] == '\n' {
        (Seq::empty(), s)
    } else {
        let p = parse_bare(s.drop_first());
        (seq![s[0]] + p.0, p.1)
    }
}

/// Reads the rest of a quoted field, after its opening quote: a doubled
/// quote stands for one quote, a lone quote closes the field. Nothing when
/// the field never closes.
pub open spec fn parse_quoted(s: Seq<char>) -> Option<(Seq<char>, Seq<char>)>
    decreases s.len(),
{
    if s.len() == 0 {
        None
    } else if s[0] == '"' {
        if s.len() >= 2 && s[1] == '"' {
            match parse_quoted(s.skip(2)) {
                Some(p) => Some((seq!['"'] + p.0, p.1)),
                None => None,
            }
        } else {
            Some((Seq::empty(), s.drop_first()))
        }
    } else {
        match parse_quoted(s.drop_first()) {
            Some(p) => Some((seq![s[0]] + p.0, p.1)),
            None => None,
        }
    }
}

/// Reads one field, quoted or not.
pub open spec fn parse_field(s: Seq<char>) -> Option<(Seq<char>, Seq<char>)> {
    if s.len() > 0 && s[0] == '"' {
        parse_quoted(s.drop_first())
    } else {
        Some(parse_bare(s))
    }
}

/// Reads one row: three comma-separated fields closed by a line break.
pub open spec fn parse_row(s: Seq<char>) -> Option<(TableRow, Seq<char>)> {
    match parse_field(s) {
        None => None,
        Some(pa) => if pa.1.len() > 0 && pa.1[0] == ',' {
            match parse_field(pa.1.drop_first()) {
                None => None,
                Some(pb) => if pb.1.len() > 0 && pb.1[0] == ',' {
                    match parse_field(pb.1.drop_first()) {
                        None => None,
                        Some(pc) => if pc.1.len() > 0 && pc.1[0] == '\n' {
                            Some(
                                (
                                    TableRow { code: pa.0, name: pb.0, status: pc.0 },
                                    pc.1.drop_first(),
                                ),
                            )
                        } else {
                            None
                        },
                    }
                } else {
                    None
                },
            }
        } else {
            None
        },
    }
}

/// Reads a whole table: rows until the text runs out.
pub open spec fn parse_rows(s: Seq<char>) -> Option<Seq<TableRow>>
    decreases s.len(),
{
    if s.len() == 0 {
        Some(Seq::empty())
    } else {
        match parse_row(s) {
            None => None,
            Some(p) => if p.1.len() < s.len() {
                match parse_rows(p.1) {
                    Some(rs) => Some(seq![p.0] + rs),
                    None => None,
                }
            } else {
                None
            },
        }
    }
}

/// Reads a table and checks off its header row.
pub open spec fn read_table(s: Seq<char>) -> Option<Seq<TableRow>> {
    match parse_rows(s) {
        Some(rs) => if rs.len() > 0 && rs[0] == header_row() {
            Some(rs.drop_first())
        } else {
            None
        },
        None => None,
    }
}

/// A character of the tail is a character of the whole.
proof fn lemma_contains_drop_first(f: Seq<char>, c: char)
    requires
        f.len() > 0,
        f.drop_first().contains(c),
    ensures
        f.contains(c),
{
    let g = f.drop_first();
    let k = choose|k: int| 0 <= k < g.len() && g[k] == c;
    assert(f[k + 1] == c);
}

/// A field that needs no quoting still needs none once its head is gone.
proof fn lemma_no_quoting_drop_first(f: Seq<char>)
    requires
        f.len() > 0,
        !needs_quoting(f),
    ensures
        !needs_quoting(f.drop_first()),
{
    if f.drop_first().contains(',') {
        lemma_contains_drop_first(f, ',');
    }
    if f.drop_first().contains('"') {
        lemma_contains_drop_first(f, '"');
    }
    if f.drop_first().contains('\n') {
        lemma_contains_drop_first(f, '\n');
    }
    if f.drop_first().contains('\r') {
        lemma_contains_drop_first(f, '\r');
    }
}

/// Reading an unquoted encoding back stops exactly at the delimiter.
proof fn lemma_parse_bare_prefix(f: Seq<char>, rest: Seq<char>)
    requires
        !needs_quoting(f),
        rest.len() > 0,
        rest[0] == ',' || rest[0] == '\n',
    ensures
        parse_bare(f + rest) == (f, rest),
    decreases f.len(),
{
    if f.len() == 0 {
        assert(f + rest =~= rest);
        assert(parse_bare(rest) == (Seq::<char>::empty(), rest));
        assert(f =~= Seq::<char>::empty());
    } else {
        assert(f[0] != ',' && f[0] != '\n') by {
            assert(f.contains(f[0]));
        }
        assert((f + rest)[0] == f[0]);
        assert((f + rest).drop_first() =~= f.drop_first() + rest);
        lemma_no_quoting_drop_first(f);
        lemma_parse_bare_prefix(f.drop_first(), rest);
        assert(seq![f[0]] + f.drop_first() =~= f);
        assert(parse_bare(f + rest) == (f, rest));
    }
}

/// Reading a quoted encoding back recovers the field and stops at its
/// closing quote.
proof fn lemma_parse_quoted_prefix(f: Seq<char>, rest: Seq<char>)
    requires
        rest.len() == 0 || rest[0] != '"',
    ensures
        parse_quoted(escaped(f) + seq!['"'] + rest) == Some((f, rest)),
    decreases f.len(),
{
    let s = escaped(f) + seq!['"'] + rest;
    if f.len() == 0 {
        assert(escaped(f) == Seq::<char>::empty());
        assert(s =~= seq!['"'] + rest);
        assert(s[0] == '"');
        if s.len() >= 2 {
            assert(s[1] == rest[0]);
        }
        assert(s.drop_first() =~= rest);
        assert(f =~= Seq::<char>::empty());
        assert(parse_quoted(s) == Some((f, rest)));
    } else {
        let f2 = f.drop_first();
        lemma_parse_quoted_prefix(f2, rest);
        if f[0] == '"' {
            assert(escaped(f) == seq!['"', '"'] + escaped(f2));
            assert(s.len() >= 2);
            assert(s[0] == '"');
            assert(s[1] == '"');
            assert(s.skip(2) =~= escaped(f2) + seq!['"'] + rest);
            assert(seq!['"'] + f2 =~= f);
            assert(parse_quoted(s) == Some((f, rest)));
        } else {
            assert(escaped(f) == seq![f[0]] + escaped(f2));
            assert(s[0] == f[0]);
            assert(s.drop_first() =~= escaped(f2) + seq!['"'] + rest);
            assert(seq![f[0]] + f2 =~= f);
            assert(parse_quoted(s) == Some((f, rest)));
        }
    }
}

/// Reading an encoded field back recovers the field and stops at the
/// delimiter that follows it.
proof fn lemma_parse_field_prefix(f: Seq<char>, rest: Seq<char>)
    requires
        rest.len() > 0,
        rest[0] == ',' || rest[0] == '\n',
    ensures
        parse_field(enc_field(f) + rest) == Some((f, rest)),
{
    let s = enc_field(f) + rest;
    if needs_quoting(f) {
        assert(enc_field(f) == seq!['"'] + escaped(f) + seq!['"']);
        assert(s.len() > 0);
        assert(s[0] == '"');
        assert(s.drop_first() =~= escaped(f) + seq!['"'] + rest);
        lemma_parse_quoted_prefix(f, rest);
        assert(parse_field(s) == Some((f, rest)));
    } else {
        assert(s =~= f + rest);
        if f.len() > 0 {
            assert(f[0] != '"') by {
                assert(f.contains(f[0]));
            }
            assert(s[0] == f[0]);
        } else {
            assert(s[0] == rest[0]);
        }
        assert(s.len() > 0 && s[0] != '"');
        lemma_parse_bare_prefix(f, rest);
        assert(parse_field(s) == Some((f, rest)));
    }
}

/// Reading an encoded row back recovers its three fields and leaves exactly
/// what followed the row.
proof fn lemma_parse_row_prefix(r: TableRow, rest: Seq<char>)
    ensures
        parse_row(enc_row(r) + rest) == Some((r, rest)),
{
    let s = enc_row(r) + rest;
    let rest3 = seq!['\n'] + rest;
    let rest2 = seq![','] + enc_field(r.status) + rest3;
    let rest1 = seq![','] + enc_field(r.name) + rest2;
    assert(s =~= enc_field(r.code) + rest1);
    assert(rest1.len() > 0 && rest1[0] == ',');
    lemma_parse_field_prefix(r.code, rest1);
    assert(rest1.drop_first() =~= enc_field(r.name) + rest2);
    assert(rest2.len() > 0 && rest2[0] == ',');
    lemma_parse_field_prefix(r.name, rest2);
    assert(rest2.drop_first() =~= enc_field(r.status) + rest3);
    assert(rest3.len() > 0 && rest3[0] == '\n');
    lemma_parse_field_prefix(r.status, rest3);
    assert(rest3.drop_first() =~= rest);
    assert(TableRow { code: r.code, name: r.name, status: r.status } =~= r);
    assert(parse_row(s) == Some((r, rest)));
}

/// Reading back a rendering yields exactly the rendered rows.
proof fn lemma_parse_render(rows: Seq<TableRow>)
    ensures
        parse_rows(render_rows(rows)) == Some(rows),
    decreases rows.len(),
{
    if rows.len() == 0 {
        assert(render_rows(rows) == Seq::<char>::empty());
        assert(parse_rows(Seq::<char>::empty()) == Some(Seq::<TableRow>::empty()));
        assert(rows =~= Seq::<TableRow>::empty());
    } else {
        let r0 = rows[0];
        let rest_rows = rows.drop_first();
        let s = render_rows(rows);
        assert(s == enc_row(r0) + render_rows(rest_rows));
        lemma_parse_row_prefix(r0, render_rows(rest_rows));
        assert(enc_row(r0).len() >= 1);
        assert(s.len() > 0);
        assert(render_rows(rest_rows).len() < s.len());
        lemma_parse_render(rest_rows);
        assert(seq![r0] + rest_rows =~= rows);
        assert(parse_rows(s) == Some(rows));
    }
}

/// Round trip: reading back a rendered table yields the header row followed
/// by exactly the given rows, fields equal character for character, embedded
/// delimiters, quotes and line breaks included.
pub proof fn lemma_table_round_trip(rows: Seq<TableRow>)
    ensures
        parse_rows(table(rows)) == Some(seq![header_row()] + rows),
{
    lemma_parse_render(seq![header_row()] + rows);
}

/// Round trip at the record level: re-reading the table written for a record
/// list yields one row per record, in order, with equal fields.
pub proof fn lemma_read_back_records(records: Seq<ExtractionResult>)
    ensures
        read_table(table(rows_of(records))) == Some(rows_of(records)),
        rows_of(records).len() == records.len(),
{
    lemma_table_round_trip(rows_of(records));
    assert((seq![header_row()] + rows_of(records))[0] == header_row());
    assert((seq![header_row()] + rows_of(records)).drop_first() =~= rows_of(records));
}

} // verus!
