//! The directories that this host exports: reading `exportfs -v` and `/etc/exports`, which share
//! a grammar.
use vstd::prelude::*;
use vstd::string::*;

use crate::error::{Fault, StorageError, maybe};
use crate::fstab::is_entry;
use crate::options::trimmed_pieces;
use crate::text::{
    after_prefix, contains_string, distinct, gather, lemma_contains_push, lemma_distinct,
    lemma_views_push, same, split, split_at_each, split_at_first, split_once, split_words,
    starts_with_char, strip_prefix, trim, trim_end_char, trimmed, trimmed_end_of, views, words,
};

verus! {

/// One exported directory, with the clients that may mount it, the options declared for any of
/// them, and the filesystem id where one is declared.
#[derive(Debug, PartialEq, Eq)]
pub struct ExportEntry {
    pub path: String,
    pub allowed_clients: Vec<String>,
    pub options: Vec<String>,
    pub fsid: Option<String>,
}

/// The mathematical content of an [`ExportEntry`].
#[verifier::ext_equal]
pub struct ExportRecord {
    pub path: Seq<char>,
    pub allowed_clients: Seq<Seq<char>>,
    pub options: Seq<Seq<char>>,
    pub fsid: Option<Seq<char>>,
}

impl View for ExportEntry {
    type V = ExportRecord;

    open spec fn view(&self) -> ExportRecord {
        ExportRecord {
            path: self.path@,
            allowed_clients: views(self.allowed_clients@),
            options: views(self.options@),
            fsid: maybe(self.fsid),
        }
    }
}

// ---------------------------------------------------------------------------------------------
// Client specs
// ---------------------------------------------------------------------------------------------
/// The client of a `client(opt,opt,...)` spec.
pub open spec fn spec_client(spec: Seq<char>) -> Seq<char> {
    match split_once(spec, '(') {
        Some((client, _)) => trim(client),
        None => trim(spec),
    }
}

/// The options of a `client(opt,opt,...)` spec.
pub open spec fn spec_options(spec: Seq<char>) -> Seq<Seq<char>> {
    match split_once(spec, '(') {
        Some((_, rest)) => trimmed_pieces(split(trim_end_char(rest, ')'), ',')),
        None => Seq::empty(),
    }
}

/// Splits a `client(opt,opt,...)` spec into its client and its options. A bare client has no
/// options; `(opts)` alone has an empty client.
pub fn parse_client_spec(spec: &str) -> (r: (String, Vec<String>))
    ensures
        r.0@ == spec_client(spec@),
        views(r.1@) == spec_options(spec@),
{
    match split_at_first(spec, '(') {
        Some((client, rest)) => {
            let pieces: Vec<&str> = split_at_each(trimmed_end_of(rest, ')'), ',');
            let ghost texts = views(pieces@);
            let mut options: Vec<String> = Vec::new();
            let mut i: usize = 0;
            while i < pieces.len()
                invariant
                    i <= pieces@.len(),
                    texts == views(pieces@),
                    views(options@) =~= trimmed_pieces(texts.take(i as int)),
                decreases pieces@.len() - i,
            {
                let piece: &str = trimmed(pieces[i]);
                proof {
                    assert(texts.take(i + 1).drop_last() =~= texts.take(i as int));
                    assert(texts.take(i + 1).last() == pieces@[i as int]@);
                }
                if !piece.is_empty() {
                    let option: String = piece.to_owned();
                    proof {
                        lemma_views_push(options@, option);
                    }
                    options.push(option);
                }
                i = i + 1;
            }
            proof {
                assert(texts.take(i as int) =~= texts);
            }
            (trimmed(client).to_owned(), options)
        },
        None => {
            let options: Vec<String> = Vec::new();
            proof {
                assert(views(options@) =~= Seq::empty());
            }
            (trimmed(spec).to_owned(), options)
        },
    }
}

// ---------------------------------------------------------------------------------------------
// Entries
// ---------------------------------------------------------------------------------------------
/// Everyone is written `*`; `exportfs -v` shows it as `<world>`.
pub open spec fn canonical_client(client: Seq<char>) -> Seq<char> {
    if client == "<world>"@ {
        "*"@
    } else {
        client
    }
}

/// The clients that the specs name, in order.
pub open spec fn clients(specs: Seq<Seq<char>>) -> Seq<Seq<char>>
    decreases specs.len(),
{
    if specs.len() == 0 {
        Seq::empty()
    } else {
        let before = clients(specs.drop_last());
        let client = canonical_client(spec_client(specs.last()));
        if client.len() == 0 {
            before
        } else {
            before.push(client)
        }
    }
}

/// The options that the specs declare, in order.
pub open spec fn declared_options(specs: Seq<Seq<char>>) -> Seq<Seq<char>>
    decreases specs.len(),
{
    if specs.len() == 0 {
        Seq::empty()
    } else {
        declared_options(specs.drop_last()) + spec_options(specs.last())
    }
}

/// The first filesystem id among the options.
pub open spec fn first_fsid(options: Seq<Seq<char>>) -> Option<Seq<char>>
    decreases options.len(),
{
    if options.len() == 0 {
        None
    } else {
        match first_fsid(options.drop_last()) {
            Some(id) => Some(id),
            None => strip_prefix(options.last(), "fsid="@),
        }
    }
}

/// The entry for a path with these client specs: each client and each option once.
pub open spec fn export_of(path: Seq<char>, specs: Seq<Seq<char>>) -> ExportRecord {
    ExportRecord {
        path,
        allowed_clients: distinct(clients(specs)),
        options: distinct(declared_options(specs)),
        fsid: first_fsid(declared_options(specs)),
    }
}

/// A line of an export table: a path and its client specs.
pub struct ExportLine {
    pub path: Seq<char>,
    pub specs: Seq<Seq<char>>,
}

/// What a line says, if it is neither blank nor a comment.
pub open spec fn export_line(line: Seq<char>) -> Option<ExportLine> {
    let w = words(trim(line));
    if is_entry(line) && w.len() > 0 {
        Some(ExportLine { path: w[0], specs: w.skip(1) })
    } else {
        None
    }
}

/// The lines of an export table.
pub open spec fn export_lines(raw: Seq<char>) -> Seq<ExportLine> {
    gather(split(raw, '\n'), |line: Seq<char>| export_line(line))
}

/// The exported paths in first-seen order, each once.
pub open spec fn paths(lines: Seq<ExportLine>) -> Seq<Seq<char>> {
    distinct(lines.map_values(|line: ExportLine| line.path))
}

/// The specs of all lines for this path, in order.
pub open spec fn specs_for(lines: Seq<ExportLine>, path: Seq<char>) -> Seq<Seq<char>>
    decreases lines.len(),
{
    if lines.len() == 0 {
        Seq::empty()
    } else if lines.last().path == path {
        specs_for(lines.drop_last(), path) + lines.last().specs
    } else {
        specs_for(lines.drop_last(), path)
    }
}

/// One entry for each exported path.
pub open spec fn grouped(lines: Seq<ExportLine>) -> Seq<ExportRecord> {
    paths(lines).map_values(|path: Seq<char>| export_of(path, specs_for(lines, path)))
}

/// The entries of an export table.
pub open spec fn exports_in(raw: Seq<char>) -> Seq<ExportRecord> {
    grouped(export_lines(raw))
}

/// Adds an option that a spec declares.
fn add_option(entry: &mut ExportEntry, option: &str, Ghost(seen): Ghost<Seq<Seq<char>>>)
    requires
        views(old(entry).options@) == distinct(seen),
        maybe(old(entry).fsid) == first_fsid(seen),
    ensures
        views(final(entry).options@) == distinct(seen.push(option@)),
        maybe(final(entry).fsid) == first_fsid(seen.push(option@)),
        final(entry).path == old(entry).path,
        final(entry).allowed_clients == old(entry).allowed_clients,
{
    proof {
        assert(seen.push(option@).drop_last() =~= seen);
    }
    match after_prefix(option, "fsid=") {
        Some(id) => {
            if entry.fsid.is_none() {
                entry.fsid = Some(id.to_owned());
            }
        },
        None => {},
    }
    if !contains_string(&entry.options, option) {
        let text: String = option.to_owned();
        let ghost before = entry.options@;
        proof {
            lemma_views_push(before, text);
        }
        entry.options.push(text);
    }
}

/// Adds a client spec to an entry.
fn add_spec(entry: &mut ExportEntry, spec: &str, Ghost(specs): Ghost<Seq<Seq<char>>>)
    requires
        old(entry)@ == export_of(old(entry).path@, specs),
    ensures
        final(entry)@ == export_of(old(entry).path@, specs.push(spec@)),
{
    let ghost all = specs.push(spec@);
    let (name, options): (String, Vec<String>) = parse_client_spec(spec);
    proof {
        assert(all.drop_last() =~= specs);
    }
    let client: String = if same(name.as_str(), "<world>") {
        "*".to_owned()
    } else {
        name
    };
    let ghost before = clients(specs);
    proof {
        assert(before.push(client@).drop_last() =~= before);
    }
    if !client.as_str().is_empty() && !contains_string(&entry.allowed_clients, client.as_str()) {
        let ghost held = entry.allowed_clients@;
        proof {
            lemma_views_push(held, client);
        }
        entry.allowed_clients.push(client);
    }
    let ghost base = declared_options(specs);
    let ghost path = entry.path;
    let ghost allowed = entry.allowed_clients;
    let mut i: usize = 0;
    proof {
        assert(base + views(options@).take(0) =~= base);
    }
    while i < options.len()
        invariant
            i <= options@.len(),
            entry.path == path,
            entry.allowed_clients == allowed,
            views(entry.options@) == distinct(base + views(options@).take(i as int)),
            maybe(entry.fsid) == first_fsid(base + views(options@).take(i as int)),
        decreases options@.len() - i,
    {
        let ghost seen = base + views(options@).take(i as int);
        proof {
            assert(base + views(options@).take(i + 1) =~= seen.push(options@[i as int]@));
        }
        add_option(entry, options[i].as_str(), Ghost(seen));
        i = i + 1;
    }
    proof {
        assert(views(options@).take(i as int) =~= views(options@));
        assert(entry@ =~= export_of(path@, all));
    }
}

pub proof fn lemma_path_push(lines: Seq<ExportLine>, line: ExportLine)
    ensures
        paths(lines.push(line)) == if paths(lines).contains(line.path) {
            paths(lines)
        } else {
            paths(lines).push(line.path)
        },
        specs_for(lines.push(line), line.path) == specs_for(lines, line.path) + line.specs,
        forall|path: Seq<char>|
            path != line.path ==> #[trigger] specs_for(lines.push(line), path) == specs_for(
                lines,
                path,
            ),
        !paths(lines).contains(line.path) ==> specs_for(lines, line.path) =~= Seq::empty(),
{
    let f = |line: ExportLine| line.path;
    assert(lines.push(line).map_values(f).drop_last() =~= lines.map_values(f));
    assert(lines.push(line).map_values(f).last() == line.path);
    assert(lines.push(line).drop_last() =~= lines);
    lemma_distinct(lines.map_values(f));
    if !paths(lines).contains(line.path) {
        assert(!lines.map_values(f).contains(line.path));
        lemma_no_specs(lines, line.path);
    }
}

proof fn lemma_no_specs(lines: Seq<ExportLine>, path: Seq<char>)
    requires
        !lines.map_values(|line: ExportLine| line.path).contains(path),
    ensures
        specs_for(lines, path) == Seq::<Seq<char>>::empty(),
    decreases lines.len(),
{
    let f = |line: ExportLine| line.path;
    if lines.len() > 0 {
        let before = lines.drop_last();
        let names = lines.map_values(f);
        assert(names[lines.len() - 1] == lines.last().path);
        if before.map_values(f).contains(path) {
            let i = choose|i: int|
                0 <= i < before.map_values(f).len() && before.map_values(f)[i] == path;
            assert(names[i] == path);
        }
        lemma_no_specs(before, path);
    }
}

/// The position of the entry for `path`, which is added at the end where there is none.
fn entry_position(out: &mut Vec<ExportEntry>, path: &str) -> (k: usize)
    ensures
        k < final(out)@.len(),
        final(out)@[k as int].path@ == path@,
        if exists|j: int| 0 <= j < old(out)@.len() && (#[trigger] old(out)@[j]).path@ == path@ {
            final(out)@ == old(out)@
        } else {
            &&& k == old(out)@.len()
            &&& final(out)@.len() == k + 1
            &&& final(out)@.take(k as int) == old(out)@
            &&& final(out)@[k as int]@ == export_of(path@, Seq::empty())
        },
{
    let mut k: usize = 0;
    while k < out.len()
        invariant
            k <= out@.len(),
            out@ == old(out)@,
            forall|j: int| 0 <= j < k ==> (#[trigger] out@[j]).path@ != path@,
        decreases out@.len() - k,
    {
        if same(out[k].path.as_str(), path) {
            return k;
        }
        k = k + 1;
    }
    let fresh: ExportEntry = ExportEntry {
        path: path.to_owned(),
        allowed_clients: Vec::new(),
        options: Vec::new(),
        fsid: None,
    };
    proof {
        assert(fresh@ =~= export_of(path@, Seq::empty()));
    }
    out.push(fresh);
    proof {
        assert(out@.take(k as int) =~= old(out)@);
    }
    k
}

/// Folds one line of an export table into the entries.
fn add_line(
    out: &mut Vec<ExportEntry>,
    fields: &Vec<&str>,
    Ghost(lines): Ghost<Seq<ExportLine>>,
)
    requires
        fields@.len() > 0,
        views(old(out)@) == grouped(lines),
    ensures
        views(final(out)@) == grouped(
            lines.push(
                ExportLine { path: views(fields@)[0], specs: views(fields@).skip(1) },
            ),
        ),
{
    let path: &str = fields[0];
    let ghost before = out@;
    let ghost line = ExportLine { path: path@, specs: views(fields@).skip(1) };
    let ghost names = paths(lines);
    proof {
        lemma_path_push(lines, line);
        lemma_distinct(lines.map_values(|line: ExportLine| line.path));
        assert(views(before).len() == before.len());
        assert forall|j: int| 0 <= j < before.len() implies (#[trigger] before[j])@ == export_of(
            names[j],
            specs_for(lines, names[j]),
        ) by {
            assert(views(before)[j] == before[j]@);
        }
        assert forall|j: int| 0 <= j < before.len() implies (#[trigger] before[j]).path@
            == names[j] by {
            assert(before[j]@.path == names[j]);
        }
        if names.contains(path@) {
            let j = choose|j: int| 0 <= j < names.len() && names[j] == path@;
            assert(before[j].path@ == path@);
        }
        if exists|j: int| 0 <= j < before.len() && (#[trigger] before[j]).path@ == path@ {
            let j = choose|j: int| 0 <= j < before.len() && (#[trigger] before[j]).path@ == path@;
            assert(names[j] == path@);
        }
    }
    let k: usize = entry_position(out, path);
    let ghost middle = out@;
    let ghost base = specs_for(lines, path@);
    let ghost added = line.specs;
    proof {
        if names.contains(path@) {
            assert(names[k as int] == path@);
        }
        assert(middle[k as int]@ == export_of(path@, base));
        assert(base + added.take(0) =~= base);
        assert(middle.update(k as int, middle[k as int]) =~= middle);
    }
    let mut i: usize = 1;
    while i < fields.len()
        invariant
            1 <= i <= fields@.len(),
            k < middle.len(),
            out@ == middle.update(k as int, out@[k as int]),
            out@.len() == middle.len(),
            added == views(fields@).skip(1),
            out@[k as int].path@ == path@,
            out@[k as int]@ == export_of(path@, base + added.take(i - 1)),
        decreases fields@.len() - i,
    {
        let ghost seen = base + added.take(i - 1);
        proof {
            assert(added[i - 1] == fields@[i as int]@);
            assert(base + added.take(i as int) =~= seen.push(fields@[i as int]@));
        }
        let entry: &mut ExportEntry = &mut out[k];
        add_spec(entry, fields[i], Ghost(seen));
        i = i + 1;
    }
    proof {
        assert(added.take(i - 1) =~= added);
        let all = lines.push(line);
        let ghost_new = paths(all);
        assert forall|j: int| 0 <= j < ghost_new.len() implies (#[trigger] views(out@)[j])
            == export_of(ghost_new[j], specs_for(all, ghost_new[j])) by {
            if j == k {
                assert(ghost_new[j] == path@);
            } else {
                assert(out@[j] == middle[j]);
                assert(middle[j] == before[j]);
                assert(ghost_new[j] == names[j]);
                assert(names[j] != path@);
            }
        }
        assert(views(out@) =~= grouped(all));
    }
}

/// Parses `exportfs -v` or `/etc/exports` into one entry per exported path.
pub fn parse_exports(raw: &str) -> (r: Vec<ExportEntry>)
    ensures
        views(r@) == exports_in(raw@),
{
    let rows: Vec<&str> = split_at_each(raw, '\n');
    let ghost all = views(rows@);
    let ghost read = |line: Seq<char>| export_line(line);
    let mut out: Vec<ExportEntry> = Vec::new();
    let mut i: usize = 0;
    proof {
        assert(views(out@) =~= grouped(gather(all.take(0), read)));
    }
    while i < rows.len()
        invariant
            i <= rows@.len(),
            all == views(rows@),
            read == (|line: Seq<char>| export_line(line)),
            views(out@) == grouped(gather(all.take(i as int), read)),
        decreases rows@.len() - i,
    {
        let line: &str = trimmed(rows[i]);
        let ghost lines = gather(all.take(i as int), read);
        proof {
            assert(all.take(i + 1).drop_last() =~= all.take(i as int));
            assert(all.take(i + 1).last() == rows@[i as int]@);
        }
        if !line.is_empty() && !starts_with_char(line, '#') {
            let fields: Vec<&str> = split_words(line);
            if fields.len() > 0 {
                add_line(&mut out, &fields, Ghost(lines));
            }
        }
        i = i + 1;
    }
    proof {
        assert(all.take(i as int) =~= all);
    }
    out
}

// ---------------------------------------------------------------------------------------------
// Where the exports are read from
// ---------------------------------------------------------------------------------------------
/// What became of reading `/etc/exports`.
pub enum ExportsFile {
    Text(String),
    NotFound,
    /// It is there but could not be read; the text of the error.
    Failed(String),
}

/// The exports of the running server, where `exportfs -v` ran and succeeded: its output is the
/// authoritative view.
pub fn live_exports(success: bool, stdout: &str) -> (r: Option<Vec<ExportEntry>>)
    ensures
        match r {
            Some(entries) => success && views(entries@) == exports_in(stdout@),
            None => !success,
        },
{
    if success {
        Some(parse_exports(stdout))
    } else {
        None
    }
}

/// What the static table comes to. A host without the table exports nothing.
pub open spec fn reads_as(
    file: ExportsFile,
    r: Result<Vec<ExportEntry>, StorageError>,
) -> bool {
    match file {
        ExportsFile::Text(text) => r is Ok && views(r->Ok_0@) == exports_in(text@),
        ExportsFile::NotFound => r is Ok && r->Ok_0@.len() == 0,
        ExportsFile::Failed(e) => r is Err && r->Err_0@ == Fault::Transport(
            "read /etc/exports: "@ + e@,
        ),
    }
}

/// The exports of the static table. A host without the table exports nothing.
pub fn static_exports(file: ExportsFile) -> (r: Result<Vec<ExportEntry>, StorageError>)
    ensures
        reads_as(file, r),
{
    match file {
        ExportsFile::Text(text) => Ok(parse_exports(text.as_str())),
        ExportsFile::NotFound => Ok(Vec::new()),
        ExportsFile::Failed(e) => {
            let mut m: String = "read /etc/exports: ".to_owned();
            m.append(e.as_str());
            Err(StorageError::Transport(m))
        },
    }
}

/// A run of `exportfs -v`.
pub struct ExportfsRun {
    pub success: bool,
    pub stdout: String,
}

/// What the host answered to the last [`ExportsAction`].
pub enum ExportsEvent {
    /// `exportfs -v` was run, where it could be.
    Exportfs(Option<ExportfsRun>),
    /// The static table was read.
    Table(ExportsFile),
}

/// What to do next to read the exports, once `exportfs -v` has been run.
pub enum ExportsAction {
    /// Read `/etc/exports`.
    ReadTable,
    Finish(Result<Vec<ExportEntry>, StorageError>),
}

/// The running server's own view comes first; the static table is read only where `exportfs` is
/// absent or failed.
pub fn read_exports(event: ExportsEvent) -> (r: ExportsAction)
    ensures
        match event {
            ExportsEvent::Exportfs(Some(run)) => if run.success {
                r matches ExportsAction::Finish(Ok(entries)) && views(entries@) == exports_in(
                    run.stdout@,
                )
            } else {
                r is ReadTable
            },
            ExportsEvent::Exportfs(None) => r is ReadTable,
            ExportsEvent::Table(file) => r matches ExportsAction::Finish(result) && reads_as(
                file,
                result,
            ),
        },
{
    match event {
        ExportsEvent::Exportfs(Some(run)) => match live_exports(run.success, run.stdout.as_str()) {
            Some(entries) => ExportsAction::Finish(Ok(entries)),
            None => ExportsAction::ReadTable,
        },
        ExportsEvent::Exportfs(None) => ExportsAction::ReadTable,
        ExportsEvent::Table(file) => ExportsAction::Finish(static_exports(file)),
    }
}

// ---------------------------------------------------------------------------------------------
// Laws
// ---------------------------------------------------------------------------------------------
/// One entry for each exported path, in first-seen order; no client and no option is listed twice.
pub proof fn law_exports_list_each_path_once(lines: Seq<ExportLine>)
    ensures
        grouped(lines).map_values(|e: ExportRecord| e.path) == paths(lines),
        paths(lines).no_duplicates(),
        forall|i: int|
            0 <= i < grouped(lines).len() ==> (
            #[trigger] grouped(lines)[i]).allowed_clients.no_duplicates() && grouped(
                lines,
            )[i].options.no_duplicates(),
{
    lemma_distinct(lines.map_values(|line: ExportLine| line.path));
    assert(grouped(lines).map_values(|e: ExportRecord| e.path) =~= paths(lines));
    assert forall|i: int| 0 <= i < grouped(lines).len() implies (
    #[trigger] grouped(lines)[i]).allowed_clients.no_duplicates() && grouped(
        lines,
    )[i].options.no_duplicates() by {
        let specs = specs_for(lines, paths(lines)[i]);
        lemma_distinct(clients(specs));
        lemma_distinct(declared_options(specs));
    }
}

/// What the lines of a text say, those that are blank or comments left out.
pub open spec fn read_lines(lines: Seq<Seq<char>>) -> Seq<ExportLine> {
    gather(lines, |line: Seq<char>| export_line(line))
}

/// The same path and clients with one line for each client.
pub open spec fn one_client_lines(line: ExportLine) -> Seq<ExportLine> {
    line.specs.map_values(|spec: Seq<char>| ExportLine { path: line.path, specs: seq![spec] })
}

/// The same paths in the same order, each with the same specs.
spec fn same_groups(a: Seq<ExportLine>, b: Seq<ExportLine>) -> bool {
    paths(a) == paths(b) && forall|path: Seq<char>|
        #[trigger] specs_for(a, path) == specs_for(b, path)
}

proof fn lemma_same_groups(a: Seq<ExportLine>, b: Seq<ExportLine>)
    requires
        same_groups(a, b),
    ensures
        grouped(a) == grouped(b),
{
    assert(grouped(a) =~= grouped(b));
}

proof fn lemma_same_groups_push(a: Seq<ExportLine>, b: Seq<ExportLine>, line: ExportLine)
    requires
        same_groups(a, b),
    ensures
        same_groups(a.push(line), b.push(line)),
{
    lemma_path_push(a, line);
    lemma_path_push(b, line);
    assert forall|path: Seq<char>| #[trigger] specs_for(a.push(line), path) == specs_for(
        b.push(line),
        path,
    ) by {
        assert(specs_for(a, path) == specs_for(b, path));
    }
}

proof fn lemma_same_groups_append(
    a: Seq<ExportLine>,
    b: Seq<ExportLine>,
    more: Seq<ExportLine>,
)
    requires
        same_groups(a, b),
    ensures
        same_groups(a + more, b + more),
    decreases more.len(),
{
    if more.len() == 0 {
        assert(a + more =~= a);
        assert(b + more =~= b);
    } else {
        lemma_same_groups_append(a, b, more.drop_last());
        lemma_same_groups_push(a + more.drop_last(), b + more.drop_last(), more.last());
        assert(a + more =~= (a + more.drop_last()).push(more.last()));
        assert(b + more =~= (b + more.drop_last()).push(more.last()));
    }
}

/// A line can be divided in two.
proof fn lemma_two_lines(
    before: Seq<ExportLine>,
    path: Seq<char>,
    some: Seq<Seq<char>>,
    others: Seq<Seq<char>>,
)
    ensures
        same_groups(
            before.push(ExportLine { path, specs: some + others }),
            before.push(ExportLine { path, specs: some }).push(ExportLine { path, specs: others }),
        ),
{
    let joint = ExportLine { path, specs: some + others };
    let first = ExportLine { path, specs: some };
    let second = ExportLine { path, specs: others };
    lemma_path_push(before, joint);
    lemma_path_push(before, first);
    lemma_path_push(before.push(first), second);
    lemma_contains_push(paths(before), path, path);
    let a = before.push(joint);
    let b = before.push(first).push(second);
    assert(paths(a) == paths(b));
    assert forall|p: Seq<char>| #[trigger] specs_for(a, p) == specs_for(b, p) by {
        if p == path {
            assert(specs_for(before, path) + (some + others) =~= specs_for(before, path) + some
                + others);
        }
    }
}

proof fn lemma_one_client_lines(before: Seq<ExportLine>, line: ExportLine)
    requires
        line.specs.len() > 0,
    ensures
        same_groups(before.push(line), before + one_client_lines(line)),
    decreases line.specs.len(),
{
    let last = line.specs.last();
    let end = ExportLine { path: line.path, specs: seq![last] };
    if line.specs.len() == 1 {
        assert(line.specs =~= seq![last]);
        assert(before + one_client_lines(line) =~= before.push(line));
    } else {
        let less = ExportLine { path: line.path, specs: line.specs.drop_last() };
        lemma_one_client_lines(before, less);
        lemma_same_groups_push(before.push(less), before + one_client_lines(less), end);
        lemma_two_lines(before, line.path, less.specs, seq![last]);
        assert(less.specs + seq![last] =~= line.specs);
        assert((before + one_client_lines(less)).push(end) =~= before + one_client_lines(line));
        let a = before.push(line);
        let b = before.push(less).push(end);
        let c = before + one_client_lines(line);
        assert forall|p: Seq<char>| #[trigger] specs_for(a, p) == specs_for(c, p) by {
            assert(specs_for(b, p) == specs_for(c, p));
        }
    }
}

proof fn lemma_read_lines_append(a: Seq<Seq<char>>, b: Seq<Seq<char>>)
    ensures
        read_lines(a + b) == read_lines(a) + read_lines(b),
    decreases b.len(),
{
    if b.len() == 0 {
        assert(a + b =~= a);
        assert(read_lines(a) + read_lines(b) =~= read_lines(a));
    } else {
        lemma_read_lines_append(a, b.drop_last());
        assert((a + b).drop_last() =~= a + b.drop_last());
        assert((a + b).last() == b.last());
        assert(read_lines(a + b) =~= read_lines(a) + read_lines(b));
    }
}

/// The two formats agree: wherever a line with a path and its clients stands, it can be replaced by
/// lines with the same path and one of its clients each, blank lines and comments among them. A
/// line that names no client stays a line.
pub proof fn law_one_line_or_many(
    one: Seq<char>,
    many: Seq<char>,
    before: Seq<Seq<char>>,
    line: Seq<char>,
    lines: Seq<Seq<char>>,
    after: Seq<Seq<char>>,
)
    requires
        split(one, '\n') == before.push(line) + after,
        split(many, '\n') == before + lines + after,
        export_line(line) is Some,
        export_line(line)->Some_0.specs.len() > 0,
        read_lines(lines) == one_client_lines(export_line(line)->Some_0),
    ensures
        exports_in(one) == exports_in(many),
{
    let entry = export_line(line)->Some_0;
    let a = read_lines(before.push(line));
    let b = read_lines(before + lines);
    lemma_read_lines_append(before.push(line), after);
    lemma_read_lines_append(before + lines, after);
    lemma_read_lines_append(before, lines);
    assert(before.push(line).drop_last() =~= before);
    assert(a == read_lines(before).push(entry));
    lemma_one_client_lines(read_lines(before), entry);
    lemma_same_groups_append(a, b, read_lines(after));
    lemma_same_groups(export_lines(one), export_lines(many));
}

/// Blank lines and comments export nothing, wherever they stand.
pub proof fn law_comments_export_nothing(
    with: Seq<char>,
    without: Seq<char>,
    before: Seq<Seq<char>>,
    comment: Seq<char>,
    after: Seq<Seq<char>>,
)
    requires
        split(with, '\n') == before.push(comment) + after,
        split(without, '\n') == before + after,
        !is_entry(comment),
    ensures
        exports_in(with) == exports_in(without),
{
    lemma_read_lines_append(before.push(comment), after);
    lemma_read_lines_append(before, after);
    assert(before.push(comment).drop_last() =~= before);
    assert(read_lines(before.push(comment)) == read_lines(before));
}

/// Everyone is listed as `*`, whichever way it is written.
pub proof fn law_world_is_star(lines: Seq<ExportLine>, i: int)
    requires
        0 <= i < grouped(lines).len(),
    ensures
        !grouped(lines)[i].allowed_clients.contains("<world>"@),
{
    let specs = specs_for(lines, paths(lines)[i]);
    lemma_distinct(clients(specs));
    lemma_no_world(specs);
}

proof fn lemma_no_world(specs: Seq<Seq<char>>)
    ensures
        !clients(specs).contains("<world>"@),
    decreases specs.len(),
{
    if specs.len() > 0 {
        lemma_no_world(specs.drop_last());
        let client = canonical_client(spec_client(specs.last()));
        reveal_strlit("<world>");
        reveal_strlit("*");
        assert("<world>"@.len() == 7);
        lemma_contains_push(clients(specs.drop_last()), client, "<world>"@);
    }
}

/// A filesystem id that is lifted out stays among the options as declared.
pub proof fn law_fsid_stays_declared(lines: Seq<ExportLine>, i: int)
    requires
        0 <= i < grouped(lines).len(),
    ensures
        grouped(lines)[i].fsid matches Some(id) ==> grouped(lines)[i].options.contains(
            "fsid="@ + id,
        ),
{
    let specs = specs_for(lines, paths(lines)[i]);
    lemma_distinct(declared_options(specs));
    lemma_fsid_declared(declared_options(specs));
}

proof fn lemma_fsid_declared(options: Seq<Seq<char>>)
    ensures
        first_fsid(options) matches Some(id) ==> options.contains("fsid="@ + id),
    decreases options.len(),
{
    if options.len() > 0 {
        let before = options.drop_last();
        let last = options.last();
        lemma_fsid_declared(before);
        assert(before.push(last) =~= options);
        match first_fsid(before) {
            Some(id) => {
                lemma_contains_push(before, last, "fsid="@ + id);
            },
            None => {
                if let Some(id) = strip_prefix(last, "fsid="@) {
                    assert(last =~= "fsid="@ + id);
                    lemma_contains_push(before, last, last);
                }
            },
        }
    }
}

} // verus!
