//! What an export table is read as: client specs, lines, and the entry that gathers all lines of a
//! path.
use vstd::prelude::*;
use vstd::string::*;

use crate::error::{Fault, StorageError};
use crate::exports::{
    ExportEntry, ExportLine, ExportRecord, ExportsFile, clients, declared_options, export_line,
    export_lines, export_of, exports_in, first_fsid, grouped, lemma_path_push, paths, reads_as,
    spec_client, spec_options, specs_for,
};
use crate::options::trimmed_pieces;
use crate::table_laws::{
    law_comment_lines_declare_nothing, law_other_lines_are_entries, lemma_words_trim,
};
use crate::text::{
    distinct, is_space, lemma_contains_push, lemma_distinct, split, trim, views, words,
};
use crate::text_laws::{
    blank, is_word, law_distinct_keeps_first_occurrences,
    law_split_once_divides_at_the_first_separator, law_strip_prefix_leaves_the_rest,
    law_texts_are_read_line_by_line, law_trim_end_char_removes_the_tail,
    law_words_are_the_runs_without_whitespace,
};

verus! {

// ---------------------------------------------------------------------------------------------
// Client specs
// ---------------------------------------------------------------------------------------------
/// The client of a spec is what stands before the first `(`; a spec without one is a client alone.
pub proof fn law_client_stands_before_the_parenthesis(client: Seq<char>, rest: Seq<char>)
    requires
        !client.contains('('),
    ensures
        spec_client(client) == trim(client),
        spec_options(client) == Seq::<Seq<char>>::empty(),
        spec_client(client + seq!['('] + rest) == trim(client),
{
    law_split_once_divides_at_the_first_separator(client, '(', rest);
}

/// The options of a spec stand behind the first `(`, up to the closing parentheses: divided at the
/// commas, each without surrounding whitespace, blank ones left out.
pub proof fn law_options_stand_in_the_parentheses(
    client: Seq<char>,
    inner: Seq<char>,
    closing: Seq<char>,
)
    requires
        !client.contains('('),
        inner.len() == 0 || inner.last() != ')',
        forall|i: int| 0 <= i < closing.len() ==> #[trigger] closing[i] == ')',
    ensures
        spec_options(client + seq!['('] + (inner + closing)) == trimmed_pieces(split(inner, ',')),
{
    law_split_once_divides_at_the_first_separator(client, '(', inner + closing);
    law_trim_end_char_removes_the_tail(inner, closing, ')');
}

/// Of the pieces of a list each is kept without surrounding whitespace, unless nothing is left.
pub proof fn law_pieces_are_trimmed_one_by_one(pieces: Seq<Seq<char>>, piece: Seq<char>)
    ensures
        trimmed_pieces(Seq::empty()) == Seq::<Seq<char>>::empty(),
        trimmed_pieces(pieces.push(piece)) == if trim(piece) == Seq::<char>::empty() {
            trimmed_pieces(pieces)
        } else {
            trimmed_pieces(pieces).push(trim(piece))
        },
{
    assert(pieces.push(piece).drop_last() =~= pieces);
    if trim(piece).len() == 0 {
        assert(trim(piece) =~= Seq::empty());
    }
}

// ---------------------------------------------------------------------------------------------
// One entry
// ---------------------------------------------------------------------------------------------
/// Whether some spec has this client.
pub open spec fn names_client(specs: Seq<Seq<char>>, client: Seq<char>) -> bool {
    exists|i: int| 0 <= i < specs.len() && spec_client(#[trigger] specs[i]) == client
}

/// Whether some spec has this option.
pub open spec fn names_option(specs: Seq<Seq<char>>, option: Seq<char>) -> bool {
    exists|i: int| 0 <= i < specs.len() && spec_options(#[trigger] specs[i]).contains(option)
}

proof fn lemma_names_push(specs: Seq<Seq<char>>, spec: Seq<char>, c: Seq<char>)
    ensures
        names_client(specs.push(spec), c) == (names_client(specs, c) || spec_client(spec) == c),
        names_option(specs.push(spec), c) == (names_option(specs, c) || spec_options(
            spec,
        ).contains(c)),
{
    let all = specs.push(spec);
    assert(all[specs.len() as int] == spec);
    if names_client(specs, c) {
        let i = choose|i: int| 0 <= i < specs.len() && spec_client(#[trigger] specs[i]) == c;
        assert(all[i] == specs[i]);
    }
    if names_client(all, c) {
        let i = choose|i: int| 0 <= i < all.len() && spec_client(#[trigger] all[i]) == c;
        if i < specs.len() {
            assert(specs[i] == all[i]);
        }
    }
    if names_option(specs, c) {
        let i = choose|i: int|
            0 <= i < specs.len() && spec_options(#[trigger] specs[i]).contains(c);
        assert(all[i] == specs[i]);
    }
    if names_option(all, c) {
        let i = choose|i: int| 0 <= i < all.len() && spec_options(#[trigger] all[i]).contains(c);
        if i < specs.len() {
            assert(specs[i] == all[i]);
        }
    }
}

proof fn lemma_clients(specs: Seq<Seq<char>>, c: Seq<char>)
    ensures
        clients(specs).contains(c) <==> {
            &&& c.len() > 0
            &&& c != "<world>"@
            &&& names_client(specs, c) || (c == "*"@ && names_client(specs, "<world>"@))
        },
    decreases specs.len(),
{
    reveal_strlit("<world>");
    reveal_strlit("*");
    assert("<world>"@.len() == 7);
    assert("*"@.len() == 1);
    if specs.len() > 0 {
        let before = specs.drop_last();
        let spec = specs.last();
        lemma_clients(before, c);
        assert(before.push(spec) =~= specs);
        lemma_names_push(before, spec, c);
        lemma_names_push(before, spec, "<world>"@);
        let client = if spec_client(spec) == "<world>"@ {
            "*"@
        } else {
            spec_client(spec)
        };
        lemma_contains_push(clients(before), client, c);
    }
}

proof fn lemma_options(specs: Seq<Seq<char>>, o: Seq<char>)
    ensures
        declared_options(specs).contains(o) <==> names_option(specs, o),
    decreases specs.len(),
{
    if specs.len() > 0 {
        let before = specs.drop_last();
        let spec = specs.last();
        lemma_options(before, o);
        assert(before.push(spec) =~= specs);
        lemma_names_push(before, spec, o);
        let a = declared_options(before);
        let b = spec_options(spec);
        let all = a + b;
        if a.contains(o) {
            let i = choose|i: int| 0 <= i < a.len() && a[i] == o;
            assert(all[i] == o);
        }
        if b.contains(o) {
            let i = choose|i: int| 0 <= i < b.len() && b[i] == o;
            assert(all[a.len() + i] == o);
        }
        if all.contains(o) {
            let i = choose|i: int| 0 <= i < all.len() && all[i] == o;
            if i < a.len() {
                assert(a[i] == o);
            } else {
                assert(b[i - a.len()] == o);
            }
        }
    }
}

/// A client is listed as it is written, whatever it is, `<world>` alone excepted: that one is listed
/// as `*`. Nothing else is listed, so `*` is listed only where some spec opens the path to everyone.
/// An option is listed if and only if some spec declares it.
pub proof fn law_clients_and_options_are_those_of_the_specs(
    path: Seq<char>,
    specs: Seq<Seq<char>>,
    c: Seq<char>,
)
    ensures
        export_of(path, specs).path == path,
        c.len() > 0 && c != "<world>"@ && names_client(specs, c) ==> export_of(
            path,
            specs,
        ).allowed_clients.contains(c),
        names_client(specs, "<world>"@) ==> export_of(path, specs).allowed_clients.contains("*"@),
        export_of(path, specs).allowed_clients.contains(c) ==> c.len() > 0 && c != "<world>"@ && (
        names_client(specs, c) || (c == "*"@ && names_client(specs, "<world>"@))),
        export_of(path, specs).options.contains(c) <==> names_option(specs, c),
{
    reveal_strlit("<world>");
    reveal_strlit("*");
    assert("<world>"@.len() == 7);
    assert("*"@.len() == 1);
    lemma_clients(specs, c);
    lemma_clients(specs, "*"@);
    lemma_options(specs, c);
    lemma_distinct(clients(specs));
    lemma_distinct(declared_options(specs));
    assert(distinct(clients(specs)).contains(c) == clients(specs).contains(c));
    assert(distinct(clients(specs)).contains("*"@) == clients(specs).contains("*"@));
    assert(distinct(declared_options(specs)).contains(c) == declared_options(specs).contains(c));
}

proof fn lemma_distinct_append(a: Seq<Seq<char>>, b: Seq<Seq<char>>)
    ensures
        distinct(a + b) == distinct(distinct(a) + b),
    decreases b.len(),
{
    lemma_distinct(a);
    if b.len() == 0 {
        assert(a + b =~= a);
        assert(distinct(a) + b =~= distinct(a));
        lemma_distinct_id(distinct(a));
    } else {
        let c = b.drop_last();
        lemma_distinct_append(a, c);
        assert(a + b =~= (a + c).push(b.last()));
        assert(distinct(a) + b =~= (distinct(a) + c).push(b.last()));
        law_distinct_keeps_first_occurrences(a + c, b.last());
        law_distinct_keeps_first_occurrences(distinct(a) + c, b.last());
    }
}

proof fn lemma_distinct_id(texts: Seq<Seq<char>>)
    requires
        texts.no_duplicates(),
    ensures
        distinct(texts) == texts,
    decreases texts.len(),
{
    if texts.len() > 0 {
        let before = texts.drop_last();
        assert(before.no_duplicates());
        lemma_distinct_id(before);
        if before.contains(texts.last()) {
            let i = choose|i: int| 0 <= i < before.len() && before[i] == texts.last();
            assert(texts[i] == texts[texts.len() - 1]);
        }
        assert(before.push(texts.last()) =~= texts);
    } else {
        assert(distinct(texts) =~= texts);
    }
}

/// One more spec: its client and its options come behind those listed already, unless they are
/// listed; a filesystem id that is there stays, and otherwise the first one of the spec counts.
pub proof fn law_entry_grows_spec_by_spec(
    path: Seq<char>,
    specs: Seq<Seq<char>>,
    spec: Seq<char>,
)
    ensures
        export_of(path, Seq::empty()) == (ExportRecord {
            path,
            allowed_clients: Seq::empty(),
            options: Seq::empty(),
            fsid: None,
        }),
        ({
            let e = export_of(path, specs);
            let next = export_of(path, specs.push(spec));
            let client = if spec_client(spec) == "<world>"@ {
                "*"@
            } else {
                spec_client(spec)
            };
            &&& next.path == path
            &&& next.allowed_clients == if client.len() == 0 || e.allowed_clients.contains(
                client,
            ) {
                e.allowed_clients
            } else {
                e.allowed_clients.push(client)
            }
            &&& next.options == distinct(e.options + spec_options(spec))
            &&& next.fsid == if e.fsid is Some {
                e.fsid
            } else {
                first_fsid(spec_options(spec))
            }
        }),
{
    let none = Seq::<Seq<char>>::empty();
    assert(export_of(path, none) =~= (ExportRecord {
        path,
        allowed_clients: Seq::empty(),
        options: Seq::empty(),
        fsid: None,
    }));
    assert(specs.push(spec).drop_last() =~= specs);
    let client = if spec_client(spec) == "<world>"@ {
        "*"@
    } else {
        spec_client(spec)
    };
    if client.len() > 0 {
        law_distinct_keeps_first_occurrences(clients(specs), client);
    }
    lemma_distinct_append(declared_options(specs), spec_options(spec));
    lemma_fsid_append(declared_options(specs), spec_options(spec));
}

proof fn lemma_fsid_append(a: Seq<Seq<char>>, b: Seq<Seq<char>>)
    ensures
        first_fsid(a + b) == if first_fsid(a) is Some {
            first_fsid(a)
        } else {
            first_fsid(b)
        },
    decreases b.len(),
{
    if b.len() == 0 {
        assert(a + b =~= a);
    } else {
        lemma_fsid_append(a, b.drop_last());
        assert((a + b).drop_last() =~= a + b.drop_last());
        assert((a + b).last() == b.last());
    }
}

/// The filesystem id is what follows `fsid=` in the first option that starts so.
pub proof fn law_fsid_is_the_first_declared(options: Seq<Seq<char>>, option: Seq<char>, id: Seq<char>)
    ensures
        first_fsid(Seq::empty()) is None,
        first_fsid(options) is Some ==> first_fsid(options.push(option)) == first_fsid(options),
        first_fsid(options) is None && option == "fsid="@ + id ==> first_fsid(options.push(option))
            == Some(id),
        first_fsid(options) is None && first_fsid(options.push(option)) == Some(id) ==> option
            == "fsid="@ + id,
{
    assert(options.push(option).drop_last() =~= options);
    law_strip_prefix_leaves_the_rest(option, "fsid="@, id);
}

// ---------------------------------------------------------------------------------------------
// Lines
// ---------------------------------------------------------------------------------------------
/// A line names a path and, behind it, the client specs; comments and blank lines name nothing.
pub proof fn law_export_lines_name_a_path_and_its_clients(
    lead: Seq<char>,
    path: Seq<char>,
    rest: Seq<char>,
)
    requires
        blank(lead),
        is_word(path),
        rest.len() == 0 || is_space(rest[0]),
    ensures
        path[0] != '#' ==> export_line(lead + path + rest) == Some(
            ExportLine { path, specs: words(rest) },
        ),
        path[0] == '#' ==> export_line(lead + path + rest) is None,
        export_line(lead) is None,
{
    let s = lead + path + rest;
    assert(s =~= lead + (seq![path[0]] + (path.skip(1) + rest)));
    law_words_are_the_runs_without_whitespace(lead, path, rest);
    lemma_words_trim(s);
    law_comment_lines_declare_nothing(lead, path.skip(1) + rest);
    if path[0] != '#' {
        law_other_lines_are_entries(lead, path[0], path.skip(1) + rest);
        assert((seq![path] + words(rest)).skip(1) =~= words(rest));
    }
}

/// An export table is read line by line, and then grouped by path.
pub proof fn law_export_table_is_read_line_by_line(a: Seq<char>, b: Seq<char>)
    ensures
        export_lines(a + seq!['\n'] + b) == export_lines(a) + export_lines(b),
        !a.contains('\n') ==> export_lines(a) == match export_line(a) {
            Some(line) => seq![line],
            None => Seq::empty(),
        },
        exports_in(a) == grouped(export_lines(a)),
{
    law_texts_are_read_line_by_line(a, b, |line: Seq<char>| export_line(line));
}

/// One more line: with a new path it makes an entry of its own behind the others; with a path that
/// is there already its specs go behind those of that entry, and no other entry changes.
pub proof fn law_exports_are_grouped_line_by_line(
    lines: Seq<ExportLine>,
    line: ExportLine,
    k: int,
)
    ensures
        grouped(Seq::empty()) == Seq::<ExportRecord>::empty(),
        (forall|i: int| 0 <= i < lines.len() ==> (#[trigger] lines[i]).path != line.path)
            ==> grouped(lines.push(line)) == grouped(lines).push(export_of(line.path, line.specs)),
        0 <= k < grouped(lines).len() && grouped(lines)[k].path == line.path ==> grouped(
            lines.push(line),
        ) == grouped(lines).update(
            k,
            export_of(line.path, specs_for(lines, line.path) + line.specs),
        ) && grouped(lines)[k] == export_of(line.path, specs_for(lines, line.path)),
{
    let f = |line: ExportLine| line.path;
    let names = lines.map_values(f);
    lemma_path_push(lines, line);
    lemma_distinct(names);
    assert(Seq::<ExportLine>::empty().map_values(f) =~= Seq::empty());
    assert(grouped(Seq::empty()) =~= Seq::empty());
    let list = paths(lines);
    let next = lines.push(line);
    if forall|i: int| 0 <= i < lines.len() ==> (#[trigger] lines[i]).path != line.path {
        if list.contains(line.path) {
            assert(names.contains(line.path));
            let i = choose|i: int| 0 <= i < names.len() && names[i] == line.path;
            assert(lines[i].path == line.path);
        }
        assert(specs_for(lines, line.path) + line.specs =~= line.specs);
        assert forall|i: int| 0 <= i < list.len() implies #[trigger] list[i] != line.path by {
            assert(list.contains(list[i]));
        }
        assert(grouped(next) =~= grouped(lines).push(export_of(line.path, line.specs)));
    }
    if 0 <= k < grouped(lines).len() && grouped(lines)[k].path == line.path {
        assert(list[k] == line.path);
        assert(list.contains(list[k]));
        assert(paths(next) == list);
        assert forall|i: int| 0 <= i < list.len() && i != k implies #[trigger] list[i]
            != line.path by {}
        assert(grouped(next) =~= grouped(lines).update(
            k,
            export_of(line.path, specs_for(lines, line.path) + line.specs),
        ));
    }
}

/// The specs for a path are those of its lines, in order.
pub proof fn law_specs_are_gathered_line_by_line(
    lines: Seq<ExportLine>,
    line: ExportLine,
    path: Seq<char>,
)
    ensures
        specs_for(Seq::empty(), path) == Seq::<Seq<char>>::empty(),
        specs_for(lines.push(line), path) == if line.path == path {
            specs_for(lines, path) + line.specs
        } else {
            specs_for(lines, path)
        },
{
    assert(lines.push(line).drop_last() =~= lines);
}

/// The static table is read whole; a host without one exports nothing, which is no error; and a
/// table that cannot be read is an error that carries the reason.
pub proof fn law_static_table_is_read_whole(
    file: ExportsFile,
    r: Result<Vec<ExportEntry>, StorageError>,
)
    ensures
        reads_as(file, r) ==> (r is Err <==> file is Failed),
        reads_as(file, r) && file is NotFound ==> views(r->Ok_0@) =~= Seq::empty(),
        file matches ExportsFile::Text(text) ==> (reads_as(file, r) <==> r is Ok && views(
            r->Ok_0@,
        ) == exports_in(text@)),
        file matches ExportsFile::Failed(e) ==> (reads_as(file, r) <==> fault_of(r)
            == Some(Fault::Transport("read /etc/exports: "@ + e@))),
{
}

/// The fault of a result, where it is one.
pub open spec fn fault_of(r: Result<Vec<ExportEntry>, StorageError>) -> Option<Fault> {
    match r {
        Ok(_) => None,
        Err(e) => Some(e@),
    }
}

} // verus!
