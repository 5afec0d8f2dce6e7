//! What the mount table and fstab are read as, told on lines that are put together from known
//! fields.
use vstd::prelude::*;
use vstd::string::*;

use crate::fstab::{FstabRecord, declared_in, declares, fstab_line, is_entry, is_missing};
use crate::mounts::{MountRecord, mount_line, mounted_on, mounts_in, network_fs, watched};
use crate::text::{
    is_space, lemma_run_bounds, lemma_run_is, lemma_trim_end, lemma_trim_start_head, run, trim,
    trim_start, words,
};
use crate::text_laws::{
    blank, is_word, law_pieces_stand_between_separators, law_texts_are_read_line_by_line,
    law_words_are_the_runs_without_whitespace, stands_between,
};

verus! {

/// The types that are reported on.
pub proof fn law_network_types(fstype: Seq<char>)
    ensures
        network_fs(fstype) <==> seq!["nfs"@, "nfs4"@, "cifs"@, "smbfs"@].contains(fstype),
{
    let all = seq!["nfs"@, "nfs4"@, "cifs"@, "smbfs"@];
    assert(all[0] == "nfs"@);
    assert(all[1] == "nfs4"@);
    assert(all[2] == "cifs"@);
    assert(all[3] == "smbfs"@);
}

// ---------------------------------------------------------------------------------------------
// Fields of a line
// ---------------------------------------------------------------------------------------------
/// Three fields with whitespace between them, perhaps some before, and perhaps more behind.
pub open spec fn fields(
    lead: Seq<char>,
    first: Seq<char>,
    gap: Seq<char>,
    second: Seq<char>,
    other_gap: Seq<char>,
    third: Seq<char>,
    rest: Seq<char>,
) -> Seq<char> {
    lead + first + (gap + second + (other_gap + third + rest))
}

/// The fields are words, the gaps are whitespace, and what follows is set off by whitespace.
pub open spec fn well_spaced(
    lead: Seq<char>,
    first: Seq<char>,
    gap: Seq<char>,
    second: Seq<char>,
    other_gap: Seq<char>,
    third: Seq<char>,
    rest: Seq<char>,
) -> bool {
    &&& blank(lead)
    &&& is_word(first)
    &&& blank(gap) && gap.len() > 0
    &&& is_word(second)
    &&& blank(other_gap) && other_gap.len() > 0
    &&& is_word(third)
    &&& rest.len() == 0 || is_space(rest[0])
}

proof fn lemma_fields(
    lead: Seq<char>,
    first: Seq<char>,
    gap: Seq<char>,
    second: Seq<char>,
    other_gap: Seq<char>,
    third: Seq<char>,
    rest: Seq<char>,
)
    requires
        well_spaced(lead, first, gap, second, other_gap, third, rest),
    ensures
        words(fields(lead, first, gap, second, other_gap, third, rest)) == seq![
            first,
            second,
            third,
        ] + words(rest),
{
    let c = other_gap + third + rest;
    let b = gap + second + c;
    assert(c[0] == other_gap[0]);
    assert(b[0] == gap[0]);
    law_words_are_the_runs_without_whitespace(other_gap, third, rest);
    law_words_are_the_runs_without_whitespace(gap, second, c);
    law_words_are_the_runs_without_whitespace(lead, first, b);
    assert(seq![first] + (seq![second] + (seq![third] + words(rest))) =~= seq![
        first,
        second,
        third,
    ] + words(rest));
}

/// A line of the mount table names device, mountpoint and type, in this order; what follows does
/// not matter. Only network types are reported, each not yet probed and one layer deep.
pub proof fn law_mount_lines_name_device_mountpoint_and_type(
    lead: Seq<char>,
    device: Seq<char>,
    gap: Seq<char>,
    mountpoint: Seq<char>,
    other_gap: Seq<char>,
    fstype: Seq<char>,
    rest: Seq<char>,
)
    requires
        well_spaced(lead, device, gap, mountpoint, other_gap, fstype, rest),
    ensures
        mount_line(fields(lead, device, gap, mountpoint, other_gap, fstype, rest)) == if seq![
            "nfs"@,
            "nfs4"@,
            "cifs"@,
            "smbfs"@,
        ].contains(fstype) {
            Some(MountRecord { device, mountpoint, fstype, health: None, layers: 1 })
        } else {
            None
        },
{
    lemma_fields(lead, device, gap, mountpoint, other_gap, fstype, rest);
    law_network_types(fstype);
}

/// A line with fewer than three fields is no mount and declares nothing.
pub proof fn law_short_lines_are_skipped(
    lead: Seq<char>,
    first: Seq<char>,
    gap: Seq<char>,
    second: Seq<char>,
    tail: Seq<char>,
)
    requires
        blank(lead),
        is_word(first),
        blank(gap) && gap.len() > 0,
        is_word(second),
        blank(tail),
    ensures
        mount_line(lead) is None && fstab_line(lead) is None,
        mount_line(lead + first + tail) is None && fstab_line(lead + first + tail) is None,
        mount_line(lead + first + (gap + second + tail)) is None && fstab_line(
            lead + first + (gap + second + tail),
        ) is None,
{
    law_words_are_the_runs_without_whitespace(tail, first, Seq::empty());
    law_words_are_the_runs_without_whitespace(lead, first, tail);
    law_words_are_the_runs_without_whitespace(gap, second, tail);
    let b = gap + second + tail;
    assert(b[0] == gap[0]);
    law_words_are_the_runs_without_whitespace(lead, first, b);
    lemma_words_trim(lead);
    lemma_words_trim(lead + first + tail);
    lemma_words_trim(lead + first + b);
}

/// The mount table is read line by line.
pub proof fn law_mount_table_is_read_line_by_line(a: Seq<char>, b: Seq<char>)
    ensures
        mounts_in(a + seq!['\n'] + b) == mounts_in(a) + mounts_in(b),
        !a.contains('\n') ==> mounts_in(a) == match mount_line(a) {
            Some(m) => seq![m],
            None => Seq::empty(),
        },
{
    law_texts_are_read_line_by_line(a, b, |line: Seq<char>| mount_line(line));
}

// ---------------------------------------------------------------------------------------------
// fstab
// ---------------------------------------------------------------------------------------------
proof fn lemma_words_lead(s: Seq<char>)
    ensures
        words(trim_start(s)) == words(s),
{
    let t = trim_start(s);
    lemma_trim_start_head(s);
    if t.len() > 0 {
        lemma_run_is(t, true, 0);
        assert(trim_start(t) =~= t);
    } else {
        lemma_run_is(t, true, 0);
        assert(trim_start(t) =~= t);
    }
}

proof fn lemma_words_tail(s: Seq<char>, b: Seq<char>)
    requires
        blank(b),
    ensures
        words(s + b) == words(s),
    decreases s.len(),
{
    lemma_run_bounds(s, true);
    lemma_trim_start_head(s);
    let n = run(s, true);
    let t = trim_start(s);
    let lead = s.take(n);
    assert forall|i: int| 0 <= i < lead.len() implies is_space(#[trigger] lead[i]) by {
        assert(lead[i] == s[i]);
    }
    if t.len() == 0 {
        let all = s + b;
        assert forall|i: int| 0 <= i < all.len() implies is_space(#[trigger] all[i]) by {
            if i < s.len() {
                assert(all[i] == s[i]);
            } else {
                assert(all[i] == b[i - s.len()]);
            }
        }
        lemma_run_is(all, true, all.len() as int);
        assert(trim_start(all).len() == 0);
    } else {
        lemma_run_bounds(t, false);
        let m = run(t, false);
        let word = t.take(m);
        let rest = t.skip(m);
        assert forall|i: int| 0 <= i < word.len() implies !is_space(#[trigger] word[i]) by {
            assert(word[i] == t[i]);
        }
        if rest.len() > 0 {
            assert(rest[0] == t[m]);
        }
        lemma_words_tail(rest, b);
        assert(s =~= lead + word + rest);
        law_words_are_the_runs_without_whitespace(lead, word, rest);
        let more = rest + b;
        if more.len() > 0 {
            if rest.len() > 0 {
                assert(more[0] == rest[0]);
            } else {
                assert(more[0] == b[0]);
            }
        }
        assert(s + b =~= lead + word + more);
        law_words_are_the_runs_without_whitespace(lead, word, more);
    }
}

/// Surrounding whitespace does not change the words of a text.
pub proof fn lemma_words_trim(s: Seq<char>)
    ensures
        words(trim(s)) == words(s),
{
    let t = trim_start(s);
    lemma_words_lead(s);
    let b = t.skip(trim(s).len() as int);
    lemma_trim_end(t);
    assert(t =~= trim(s) + b);
    lemma_trim_tail_blank(t);
    lemma_words_tail(trim(s), b);
}

proof fn lemma_trim_tail_blank(t: Seq<char>)
    ensures
        blank(t.skip(crate::text::trim_end(t).len() as int)),
    decreases t.len(),
{
    let e = crate::text::trim_end(t);
    lemma_trim_end(t);
    if t.len() > 0 && is_space(t.last()) {
        lemma_trim_tail_blank(t.drop_last());
        lemma_trim_end(t.drop_last());
        let b = t.skip(e.len() as int);
        let c = t.drop_last().skip(e.len() as int);
        assert forall|i: int| 0 <= i < b.len() implies is_space(#[trigger] b[i]) by {
            if i < c.len() {
                assert(c[i] == b[i]);
            } else {
                assert(b[i] == t.last());
            }
        }
    }
}

proof fn lemma_trim_head(lead: Seq<char>, first: char, rest: Seq<char>)
    requires
        blank(lead),
        !is_space(first),
    ensures
        trim(lead + (seq![first] + rest)).len() > 0,
        trim(lead + (seq![first] + rest))[0] == first,
{
    let s = lead + (seq![first] + rest);
    let n = lead.len() as int;
    assert forall|i: int| 0 <= i < n implies is_space(#[trigger] s[i]) by {
        assert(s[i] == lead[i]);
    }
    assert(s[n] == first);
    lemma_run_is(s, true, n);
    let t = trim_start(s);
    assert(t =~= seq![first] + rest);
    lemma_trim_end(t);
    if trim(s).len() == 0 {
        lemma_trim_tail_blank(t);
        assert(t.skip(0)[0] == first);
    }
    assert(trim(s)[0] == t[0]);
}

/// A line whose first character behind any whitespace is `#` declares nothing, whatever follows.
pub proof fn law_comment_lines_declare_nothing(lead: Seq<char>, rest: Seq<char>)
    requires
        blank(lead),
    ensures
        fstab_line(lead + (seq!['#'] + rest)) is None,
        !is_entry(lead + (seq!['#'] + rest)),
        !is_entry(lead),
{
    lemma_trim_head(lead, '#', rest);
    lemma_run_is(lead, true, lead.len() as int);
    assert(trim_start(lead) =~= Seq::empty());
}

/// Any other line that is not blank is an entry.
pub proof fn law_other_lines_are_entries(lead: Seq<char>, first: char, rest: Seq<char>)
    requires
        blank(lead),
        !is_space(first),
        first != '#',
    ensures
        is_entry(lead + (seq![first] + rest)),
{
    lemma_trim_head(lead, first, rest);
}

/// A line of fstab names device, mountpoint and type, in this order, and its options behind them,
/// if any. Only network types are declared. The mount is an automount if and only if
/// `x-systemd.automount` is one of the comma-separated options, whole.
pub proof fn law_fstab_lines_name_device_mountpoint_type_and_options(
    lead: Seq<char>,
    device: Seq<char>,
    gap: Seq<char>,
    mountpoint: Seq<char>,
    other_gap: Seq<char>,
    fstype: Seq<char>,
    last_gap: Seq<char>,
    options: Seq<char>,
    rest: Seq<char>,
)
    requires
        well_spaced(lead, device, gap, mountpoint, other_gap, fstype, last_gap),
        blank(last_gap),
        device[0] != '#',
        is_word(options),
        rest.len() == 0 || is_space(rest[0]),
    ensures
        fstab_line(fields(lead, device, gap, mountpoint, other_gap, fstype, last_gap)) == if seq![
            "nfs"@,
            "nfs4"@,
            "cifs"@,
            "smbfs"@,
        ].contains(fstype) {
            Some(FstabRecord { device, mountpoint, fstype, automount: false })
        } else {
            None
        },
        last_gap.len() > 0 ==> fstab_line(
            fields(
                lead,
                device,
                gap,
                mountpoint,
                other_gap,
                fstype,
                last_gap + options + rest,
            ),
        ) == if seq!["nfs"@, "nfs4"@, "cifs"@, "smbfs"@].contains(fstype) {
            Some(
                FstabRecord {
                    device,
                    mountpoint,
                    fstype,
                    automount: exists|a: Seq<char>, b: Seq<char>| #[trigger]
                        stands_between(options, ',', a, "x-systemd.automount"@, b),
                },
            )
        } else {
            None
        },
{
    law_network_types(fstype);
    let short = fields(lead, device, gap, mountpoint, other_gap, fstype, last_gap);
    lemma_fields(lead, device, gap, mountpoint, other_gap, fstype, last_gap);
    law_words_are_the_runs_without_whitespace(last_gap, options, rest);
    lemma_words_trim(short);
    lemma_entry(lead, device, gap + mountpoint + (other_gap + fstype + last_gap));
    if last_gap.len() > 0 {
        let more = last_gap + options + rest;
        assert(more[0] == last_gap[0]);
        let long = fields(lead, device, gap, mountpoint, other_gap, fstype, more);
        lemma_fields(lead, device, gap, mountpoint, other_gap, fstype, more);
        lemma_words_trim(long);
        lemma_entry(lead, device, gap + mountpoint + (other_gap + fstype + more));
        law_pieces_stand_between_separators(options, ',', "x-systemd.automount"@);
        reveal_strlit("x-systemd.automount");
        assert(!"x-systemd.automount"@.contains(','));
        assert(words(trim(long))[3] == options);
    }
}

proof fn lemma_entry(lead: Seq<char>, first: Seq<char>, rest: Seq<char>)
    requires
        blank(lead),
        is_word(first),
        first[0] != '#',
    ensures
        is_entry(lead + first + rest),
{
    assert(lead + first + rest =~= lead + (seq![first[0]] + (first.skip(1) + rest)));
    law_other_lines_are_entries(lead, first[0], first.skip(1) + rest);
}

/// fstab is read line by line.
pub proof fn law_fstab_is_read_line_by_line(a: Seq<char>, b: Seq<char>)
    ensures
        declared_in(a + seq!['\n'] + b) == declared_in(a) + declared_in(b),
        !a.contains('\n') ==> declared_in(a) == match fstab_line(a) {
            Some(e) => seq![e],
            None => Seq::empty(),
        },
{
    law_texts_are_read_line_by_line(a, b, |line: Seq<char>| fstab_line(line));
}

/// A mountpoint is declared if and only if some entry has exactly that mountpoint; what lies below
/// or above a declared mountpoint is not declared with it.
pub proof fn law_declared_means_an_entry_of_its_own(
    entries: Seq<FstabRecord>,
    mountpoint: Seq<char>,
)
    ensures
        declares(entries, mountpoint) <==> entries.map_values(
            |e: FstabRecord| e.mountpoint,
        ).contains(mountpoint),
{
    let places = entries.map_values(|e: FstabRecord| e.mountpoint);
    if declares(entries, mountpoint) {
        let i = choose|i: int|
            0 <= i < entries.len() && #[trigger] entries[i].mountpoint == mountpoint;
        assert(places[i] == mountpoint);
    }
    if places.contains(mountpoint) {
        let i = choose|i: int| 0 <= i < places.len() && places[i] == mountpoint;
        assert(entries[i].mountpoint == mountpoint);
    }
}

/// Something is mounted on a mountpoint if and only if some row has exactly that mountpoint.
pub proof fn law_mounted_means_a_row_of_its_own(
    mounts: Seq<MountRecord>,
    mountpoint: Seq<char>,
)
    ensures
        mounted_on(mounts, mountpoint) <==> mounts.map_values(
            |m: MountRecord| m.mountpoint,
        ).contains(mountpoint),
{
    let places = mounts.map_values(|m: MountRecord| m.mountpoint);
    if mounted_on(mounts, mountpoint) {
        let i = choose|i: int|
            0 <= i < mounts.len() && #[trigger] mounts[i].mountpoint == mountpoint;
        assert(places[i] == mountpoint);
    }
    if places.contains(mountpoint) {
        let i = choose|i: int| 0 <= i < places.len() && places[i] == mountpoint;
        assert(mounts[i].mountpoint == mountpoint);
    }
}

/// What is missing is declared, watched, and mounted nowhere: the device and the type of what is
/// mounted there do not matter.
pub proof fn law_missing_goes_by_the_mountpoint(
    e: FstabRecord,
    live: Seq<MountRecord>,
    watch: Seq<Seq<char>>,
)
    ensures
        is_missing(e, live, watch) <==> watched(e.mountpoint, watch) && !live.map_values(
            |m: MountRecord| m.mountpoint,
        ).contains(e.mountpoint),
{
    law_mounted_means_a_row_of_its_own(live, e.mountpoint);
}

} // verus!
