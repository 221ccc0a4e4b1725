//! Text pages: templates with blanks, table rows and joined lists.

use vstd::prelude::*;
use vstd::string::*;

use crate::cli::texts;

verus! {

/// A template in which each `{}` gives way to the next of the fillings.
pub open spec fn filled(t: Seq<char>, fillings: Seq<Seq<char>>) -> Seq<char>
    decreases t.len(),
{
    if t.len() == 0 {
        Seq::empty()
    } else if t.len() >= 2 && t[0] == '{' && t[1] == '}' && fillings.len() > 0 {
        fillings[0] + filled(t.skip(2), fillings.skip(1))
    } else {
        seq![t[0]] + filled(t.skip(1), fillings)
    }
}

/// Appends a template with its blanks filled.
pub fn fill(out: &mut String, t: &str, fillings: &Vec<String>)
    ensures
        final(out)@ == old(out)@ + filled(t@, texts(fillings@)),
{
    let n: usize = t.unicode_len();
    let ghost all = texts(fillings@);
    let ghost before = out@;
    let mut i: usize = 0;
    let mut j: usize = 0;
    assert(t@.skip(0) =~= t@);
    assert(all.skip(0) =~= all);
    assert(out@ =~= before + Seq::empty());
    assert(before + filled(t@, all) == out@ + filled(t@.skip(0), all.skip(0)));
    while i < n
        invariant
            i <= n == t@.len(),
            j <= fillings.len(),
            all == texts(fillings@),
            before + filled(t@, all) == out@ + filled(t@.skip(i as int), all.skip(j as int)),
        decreases n - i,
    {
        let c: char = t.get_char(i);
        let ghost rest = t@.skip(i as int);
        let ghost now = out@;
        assert(rest[0] == c);
        if c == '{' && n - i >= 2 && t.get_char(i + 1) == '}' && j < fillings.len() {
            assert(rest[1] == '}');
            assert(all.skip(j as int)[0] == fillings@[j as int]@);
            assert(rest.skip(2) =~= t@.skip(i + 2));
            assert(all.skip(j as int).skip(1) =~= all.skip(j + 1));
            out.append(fillings[j].as_str());
            assert(now + (fillings@[j as int]@ + filled(t@.skip(i + 2), all.skip(j + 1))) =~= out@
                + filled(t@.skip(i + 2), all.skip(j + 1)));
            i += 2;
            j += 1;
        } else {
            proof {
                if rest.len() >= 2 {
                    assert(rest[1] == t@[i + 1]);
                }
            }
            assert(rest.skip(1) =~= t@.skip(i + 1));
            out.append(t.substring_char(i, i + 1));
            assert(t@.subrange(i as int, i + 1) =~= seq![c]);
            assert(now + (seq![c] + filled(t@.skip(i + 1), all.skip(j as int))) =~= out@ + filled(
                t@.skip(i + 1),
                all.skip(j as int),
            ));
            i += 1;
        }
    }
    assert(t@.skip(i as int) =~= Seq::empty());
    assert(out@ + Seq::<char>::empty() =~= out@);
}

/// The cells of a table row, each closed by a bar.
pub open spec fn cells_text(cells: Seq<Seq<char>>) -> Seq<char>
    decreases cells.len(),
{
    if cells.len() == 0 {
        Seq::empty()
    } else {
        cells_text(cells.drop_last()) + " "@ + cells.last() + " |"@
    }
}

/// A table row.
pub open spec fn row_text(cells: Seq<Seq<char>>) -> Seq<char> {
    "|"@ + cells_text(cells) + "\n"@
}

/// Appends a table row.
pub fn append_row(out: &mut String, cells: &Vec<String>)
    ensures
        final(out)@ == old(out)@ + row_text(texts(cells@)),
{
    let ghost before = out@;
    let ghost all = texts(cells@);
    out.append("|");
    let mut i: usize = 0;
    assert(all.take(0) =~= Seq::empty());
    assert(out@ =~= before + "|"@ + cells_text(all.take(0)));
    while i < cells.len()
        invariant
            i <= cells.len(),
            all == texts(cells@),
            out@ == before + "|"@ + cells_text(all.take(i as int)),
        decreases cells.len() - i,
    {
        proof {
            let s = all.take(i + 1);
            assert(s.drop_last() =~= all.take(i as int));
            assert(s.last() == cells@[i as int]@);
        }
        out.append(" ");
        out.append(cells[i].as_str());
        out.append(" |");
        i += 1;
        assert(out@ =~= before + "|"@ + cells_text(all.take(i as int)));
    }
    out.append("\n");
    assert(all.take(i as int) =~= all);
    assert(out@ =~= before + row_text(all));
}

/// The cells of the rule below a table's head.
pub open spec fn rule_cells(n: nat) -> Seq<char>
    decreases n,
{
    if n == 0 {
        Seq::empty()
    } else {
        rule_cells((n - 1) as nat) + "---|"@
    }
}

/// The rule below the head of a table with `n` columns.
pub open spec fn rule_text(n: nat) -> Seq<char> {
    "|"@ + rule_cells(n) + "\n"@
}

/// Appends the rule below the head of a table with `n` columns.
pub fn append_rule(out: &mut String, n: usize)
    ensures
        final(out)@ == old(out)@ + rule_text(n as nat),
{
    let ghost before = out@;
    out.append("|");
    let mut i: usize = 0;
    assert(out@ =~= before + "|"@ + rule_cells(0));
    while i < n
        invariant
            i <= n,
            out@ == before + "|"@ + rule_cells(i as nat),
        decreases n - i,
    {
        out.append("---|");
        i += 1;
        assert(out@ =~= before + "|"@ + rule_cells(i as nat));
    }
    out.append("\n");
    assert(out@ =~= before + rule_text(n as nat));
}

/// The cells of several rows.
pub open spec fn all_cells(rows: Seq<Vec<String>>) -> Seq<Seq<Seq<char>>> {
    Seq::new(rows.len(), |i: int| texts(rows[i]@))
}

/// The rows of a table, one after the other.
pub open spec fn rows_text(rows: Seq<Seq<Seq<char>>>) -> Seq<char>
    decreases rows.len(),
{
    if rows.len() == 0 {
        Seq::empty()
    } else {
        rows_text(rows.drop_last()) + row_text(rows.last())
    }
}

/// Appends the rows of a table.
pub fn append_rows(out: &mut String, rows: &Vec<Vec<String>>)
    ensures
        final(out)@ == old(out)@ + rows_text(all_cells(rows@)),
{
    let ghost before = out@;
    let ghost all = all_cells(rows@);
    let mut i: usize = 0;
    assert(all.take(0) =~= Seq::empty());
    assert(out@ =~= before + rows_text(all.take(0)));
    while i < rows.len()
        invariant
            i <= rows.len(),
            all == all_cells(rows@),
            out@ == before + rows_text(all.take(i as int)),
        decreases rows.len() - i,
    {
        proof {
            let s = all.take(i + 1);
            assert(s.drop_last() =~= all.take(i as int));
            assert(s.last() == texts(rows@[i as int]@));
        }
        append_row(out, &rows[i]);
        i += 1;
        assert(out@ =~= before + rows_text(all.take(i as int)));
    }
    assert(all.take(i as int) =~= all);
}

/// A table: its head, the rule and its rows.
pub open spec fn table_text(head: Seq<Seq<char>>, rows: Seq<Seq<Seq<char>>>) -> Seq<char> {
    row_text(head) + rule_text(head.len()) + rows_text(rows)
}

/// Appends a table.
pub fn append_table(out: &mut String, head: &Vec<String>, rows: &Vec<Vec<String>>)
    ensures
        final(out)@ == old(out)@ + table_text(texts(head@), all_cells(rows@)),
{
    let ghost before = out@;
    append_row(out, head);
    append_rule(out, head.len());
    append_rows(out, rows);
    assert(out@ =~= before + table_text(texts(head@), all_cells(rows@)));
}

/// Parts with a separator between them.
pub open spec fn joined_text(parts: Seq<Seq<char>>, sep: Seq<char>) -> Seq<char>
    decreases parts.len(),
{
    if parts.len() == 0 {
        Seq::empty()
    } else if parts.len() == 1 {
        parts[0]
    } else {
        joined_text(parts.drop_last(), sep) + sep + parts.last()
    }
}

/// Appends parts with a separator between them.
pub fn append_joined(out: &mut String, parts: &Vec<String>, sep: &str)
    ensures
        final(out)@ == old(out)@ + joined_text(texts(parts@), sep@),
{
    let ghost before = out@;
    let ghost all = texts(parts@);
    if parts.len() == 0 {
        assert(out@ =~= before + Seq::<char>::empty());
        return;
    }
    out.append(parts[0].as_str());
    let mut i: usize = 1;
    proof {
        assert(all.take(1).len() == 1);
        assert(all.take(1)[0] == parts@[0]@);
        assert(out@ =~= before + joined_text(all.take(1), sep@));
    }
    while i < parts.len()
        invariant
            1 <= i <= parts.len(),
            all == texts(parts@),
            out@ == before + joined_text(all.take(i as int), sep@),
        decreases parts.len() - i,
    {
        proof {
            let s = all.take(i + 1);
            assert(s.drop_last() =~= all.take(i as int));
            assert(s.last() == parts@[i as int]@);
        }
        out.append(sep);
        out.append(parts[i].as_str());
        i += 1;
        assert(out@ =~= before + joined_text(all.take(i as int), sep@));
    }
    assert(all.take(i as int) =~= all);
}

// ---- What a page promises ----

/// `part` stands somewhere in `page`.
pub open spec fn shows(page: Seq<char>, part: Seq<char>) -> bool {
    exists|a: Seq<char>, b: Seq<char>| page == #[trigger] (a + part + b)
}

/// A line of a table: its cells with bars between and around them.
pub open spec fn line_of(cells: Seq<Seq<char>>) -> Seq<char> {
    "| "@ + joined_text(cells, " | "@) + " |\n"@
}

/// What stands in a part of a page stands in the page.
pub proof fn a_page_shows_what_its_parts_show(
    page: Seq<char>,
    front: Seq<char>,
    x: Seq<char>,
    back: Seq<char>,
    part: Seq<char>,
)
    requires
        page == front + x + back,
        shows(x, part),
    ensures
        shows(page, part),
{
    let (a, b) = choose|a: Seq<char>, b: Seq<char>| x == #[trigger] (a + part + b);
    assert(page =~= (front + a) + part + (b + back));
}

/// A row is its cells between bars.
pub proof fn a_row_is_its_cells_between_bars(cells: Seq<Seq<char>>)
    requires
        cells.len() > 0,
    ensures
        row_text(cells) == "| "@ + joined_text(cells, " | "@) + " |\n"@,
{
    reveal_strlit("|");
    reveal_strlit(" ");
    reveal_strlit(" |");
    reveal_strlit("| ");
    reveal_strlit(" | ");
    reveal_strlit(" |\n");
    reveal_strlit("\n");
    lemma_cells_joined(cells);
    assert(" |\n"@ =~= " |"@ + "\n"@);
    assert("| "@ =~= "|"@ + " "@);
    assert(row_text(cells) =~= "| "@ + joined_text(cells, " | "@) + " |\n"@);
}

proof fn lemma_cells_joined(cells: Seq<Seq<char>>)
    requires
        cells.len() > 0,
    ensures
        cells_text(cells) == " "@ + joined_text(cells, " | "@) + " |"@,
    decreases cells.len(),
{
    reveal_strlit(" ");
    reveal_strlit(" |");
    reveal_strlit(" | ");
    if cells.len() == 1 {
        assert(cells_text(cells.drop_last()) =~= Seq::empty());
        assert(cells.last() == cells[0]);
        assert(cells_text(cells) =~= " "@ + joined_text(cells, " | "@) + " |"@);
    } else {
        lemma_cells_joined(cells.drop_last());
        assert(" | "@ =~= " |"@ + " "@);
        let j = joined_text(cells.drop_last(), " | "@);
        let c = cells.last();
        assert(joined_text(cells, " | "@) == j + " | "@ + c);
        assert(cells_text(cells) == (" "@ + j + " |"@) + " "@ + c + " |"@);
        assert((" "@ + j + " |"@) + " "@ + c + " |"@ =~= " "@ + (j + (" |"@ + " "@) + c) + " |"@);
    }
}

/// Every row of a table stands in it.
pub proof fn every_row_is_shown(rows: Seq<Seq<Seq<char>>>, i: int)
    requires
        0 <= i < rows.len(),
    ensures
        shows(rows_text(rows), row_text(rows[i])),
    decreases rows.len(),
{
    let before = rows_text(rows.drop_last());
    let last = row_text(rows.last());
    if i == rows.len() - 1 {
        assert(rows_text(rows) =~= before + last + Seq::<char>::empty());
    } else {
        every_row_is_shown(rows.drop_last(), i);
        assert(rows_text(rows) =~= Seq::<char>::empty() + before + last);
        a_page_shows_what_its_parts_show(
            rows_text(rows),
            Seq::empty(),
            before,
            last,
            row_text(rows[i]),
        );
    }
}

/// A table with `n` rows has a line for its head, one for the rule and one for each row.
pub proof fn a_table_begins_with_its_head(head: Seq<Seq<char>>, rows: Seq<Seq<Seq<char>>>, i: int)
    requires
        0 <= i < rows.len(),
    ensures
        shows(table_text(head, rows), row_text(head)),
        shows(table_text(head, rows), row_text(rows[i])),
{
    let t = table_text(head, rows);
    assert(t =~= Seq::<char>::empty() + row_text(head) + (rule_text(head.len()) + rows_text(rows)));
    every_row_is_shown(rows, i);
    assert(t =~= (row_text(head) + rule_text(head.len())) + rows_text(rows)
        + Seq::<char>::empty());
    a_page_shows_what_its_parts_show(
        t,
        row_text(head) + rule_text(head.len()),
        rows_text(rows),
        Seq::empty(),
        row_text(rows[i]),
    );
}

/// A template keeps its text up to the first brace; there a blank gives way to the next filling.
pub proof fn blanks_give_way_in_order(
    text: Seq<char>,
    rest: Seq<char>,
    filling: Seq<char>,
    more: Seq<Seq<char>>,
)
    requires
        forall|i: int| 0 <= i < text.len() ==> #[trigger] text[i] != '{',
    ensures
        filled(text + seq!['{', '}'] + rest, seq![filling] + more) == text + filling + filled(
            rest,
            more,
        ),
        filled(text, more) == text,
    decreases text.len(),
{
    let t = text + seq!['{', '}'] + rest;
    let f = seq![filling] + more;
    assert(f.skip(1) =~= more);
    if text.len() == 0 {
        assert(t.skip(2) =~= rest);
        assert(filled(t, f) =~= text + filling + filled(rest, more));
        assert(filled(text, more) =~= text);
    } else {
        let short = text.skip(1);
        blanks_give_way_in_order(short, rest, filling, more);
        assert(t.skip(1) =~= short + seq!['{', '}'] + rest);
        assert(t[0] == text[0]);
        assert(filled(t, f) =~= text + filling + filled(rest, more)) by {
            assert(filled(t, f) == seq![t[0]] + filled(t.skip(1), f));
            assert(text =~= seq![text[0]] + short);
        }
        assert(filled(text, more) =~= text) by {
            assert(text =~= seq![text[0]] + short);
        }
    }
}

} // verus!
