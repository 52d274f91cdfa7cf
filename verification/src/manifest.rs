//! The gallery's manifest: one tab-separated line per saved run, read back
//! into entries, checked for duplicates, and baked into the gallery index.

use vstd::prelude::*;
use crate::automaton::SimulationResult;
use crate::decimal::{decimal, u64_text};
use crate::export::{align_label, align_label_text, fill_label, fill_label_text};
use crate::gallery::{first_index_of, find_char, lemma_first_index_at, lemma_first_index_of, json_escaped, json_str_escape, tsv_field, sanitize_tsv};
use crate::ic::{first_row_ic, first_row_ic_text};
use crate::sim::{boundary_name, PaddingAlign, PaddingFill};
use crate::text::{chars_of, chars_eq, push_chars, push_char, string_of};

verus! {

/// The manifest's header line (without its line break).
pub const MANIFEST_HEADER: &'static str = "id\trule\twidth\tgenerations\tboundary\tstatus\tprogress\ttimestamp\tfilename\tfill\talign\tinitial_condition";

/// One saved run as the manifest records it.
#[derive(Clone, Debug)]
pub struct ManifestEntry {
    pub id: String,
    pub rule: String,
    pub width: String,
    pub generations: String,
    pub boundary: String,
    pub status: String,
    pub progress: String,
    pub timestamp: String,
    pub filename: String,
    pub fill: String,
    pub align: String,
    pub ic: String,
}

/// The fields of an entry, in manifest column order.
pub open spec fn entry_fields(e: ManifestEntry) -> Seq<Seq<char>> {
    seq![
        e.id@,
        e.rule@,
        e.width@,
        e.generations@,
        e.boundary@,
        e.status@,
        e.progress@,
        e.timestamp@,
        e.filename@,
        e.fill@,
        e.align@,
        e.ic@,
    ]
}

/// `fields` joined by tabs.
pub open spec fn tab_joined(fields: Seq<Seq<char>>) -> Seq<char>
    decreases fields.len(),
{
    if fields.len() == 0 {
        Seq::empty()
    } else if fields.len() == 1 {
        fields[0]
    } else {
        tab_joined(fields.drop_last()) + seq!['\t'] + fields.last()
    }
}

/// The manifest line of an entry: every field made tab- and line-free,
/// joined by tabs, ended by a line break.
pub open spec fn manifest_line_text(e: ManifestEntry) -> Seq<char> {
    tab_joined(entry_fields(e).map_values(|f: Seq<char>| tsv_field(f))) + seq!['\n']
}

/// The manifest line of an entry; see [`manifest_line_text`].
pub fn manifest_line(e: &ManifestEntry) -> (line: String)
    ensures
        line@ == manifest_line_text(*e),
{
    let mut line = String::new();
    let f0 = sanitize_tsv(e.id.as_str());
    line.append(f0.as_str());
    let parts: [&String; 11] = [
        &e.rule,
        &e.width,
        &e.generations,
        &e.boundary,
        &e.status,
        &e.progress,
        &e.timestamp,
        &e.filename,
        &e.fill,
        &e.align,
        &e.ic,
    ];
    let ghost sane = entry_fields(*e).map_values(|f: Seq<char>| tsv_field(f));
    proof {
        assert(sane.take(1) =~= seq![sane[0]]);
        assert(tab_joined(sane.take(1)) == sane[0]);
    }
    let mut k: usize = 0;
    while k < 11
        invariant
            k <= 11,
            sane == entry_fields(*e).map_values(|f: Seq<char>| tsv_field(f)),
            forall|j: int| 0 <= j < 11 ==> (#[trigger] parts@[j])@ == entry_fields(*e)[j + 1],
            line@ == tab_joined(sane.take(k + 1)),
        decreases 11 - k,
    {
        push_char(&mut line, '\t');
        let f = sanitize_tsv(parts[k].as_str());
        line.append(f.as_str());
        proof {
            assert(sane.take(k + 2).drop_last() =~= sane.take(k + 1));
            assert(sane.take(k + 2).last() == sane[k + 1]);
        }
        k = k + 1;
    }
    push_char(&mut line, '\n');
    proof {
        assert(sane.take(12) =~= sane);
    }
    line
}


/// The fields of a line split at every tab (`str::split('\t')`).
pub open spec fn split_tabs(s: Seq<char>) -> Seq<Seq<char>>
    decreases s.len(),
{
    match first_index_of(s, '\t') {
        Some(i) => if 0 <= i < s.len() {
            seq![s.take(i)] + split_tabs(s.skip(i + 1))
        } else {
            seq![s]
        },
        None => seq![s],
    }
}

/// Unicode's White_Space characters (`char::is_whitespace`).
pub open spec fn unicode_whitespace(c: char) -> bool {
    c == '\t' || c == '\n' || c == '\u{0B}' || c == '\u{0C}' || c == '\r' || c == ' ' || c
        == '\u{85}' || c == '\u{A0}' || c == '\u{1680}' || ('\u{2000}' <= c && c <= '\u{200A}')
        || c == '\u{2028}' || c == '\u{2029}' || c == '\u{202F}' || c == '\u{205F}' || c
        == '\u{3000}'
}

/// A line that holds nothing but whitespace (`line.trim().is_empty()`).
pub open spec fn is_blank(line: Seq<char>) -> bool {
    forall|i: int| 0 <= i < line.len() ==> #[trigger] unicode_whitespace(line[i])
}

/// The field at `i`, or an empty field past the end.
pub open spec fn field_or_empty(parts: Seq<Seq<char>>, i: int) -> Seq<char> {
    if i < parts.len() { parts[i] } else { Seq::empty() }
}

/// The twelve fields a manifest line stands for: none for a blank line or a
/// line of fewer than nine fields; missing trailing fields are empty.
pub open spec fn line_record(line: Seq<char>) -> Option<Seq<Seq<char>>> {
    let parts = split_tabs(line);
    if is_blank(line) || parts.len() < 9 {
        None
    } else {
        Some(Seq::new(12, |i: int| field_or_empty(parts, i)))
    }
}

/// The records of manifest lines `start..`, in order.
pub open spec fn records_from(lines: Seq<Seq<char>>, start: int) -> Seq<Seq<Seq<char>>>
    decreases lines.len() - start,
{
    if start < 0 || start >= lines.len() {
        Seq::empty()
    } else {
        match line_record(lines[start]) {
            Some(r) => seq![r] + records_from(lines, start + 1),
            None => records_from(lines, start + 1),
        }
    }
}

/// Is `c` whitespace in Unicode's sense?
pub fn is_whitespace_char(c: char) -> (r: bool)
    ensures
        r == unicode_whitespace(c),
{
    c == '\t' || c == '\n' || c == '\u{0B}' || c == '\u{0C}' || c == '\r' || c == ' ' || c
        == '\u{85}' || c == '\u{A0}' || c == '\u{1680}' || (c >= '\u{2000}' && c <= '\u{200A}')
        || c == '\u{2028}' || c == '\u{2029}' || c == '\u{202F}' || c == '\u{205F}' || c
        == '\u{3000}'
}

/// Split `v` at every tab.
pub fn split_tab_fields(v: &[char]) -> (parts: Vec<Vec<char>>)
    ensures
        parts@.map_values(|p: Vec<char>| p@) == split_tabs(v@),
    decreases v@.len(),
{
    match find_char(v, '\t') {
        Some(i) => {
            let mut head: Vec<char> = Vec::new();
            let mut k: usize = 0;
            while k < i
                invariant
                    i < v@.len(),
                    k <= i,
                    head@ =~= v@.take(k as int),
                decreases i - k,
            {
                head.push(v[k]);
                k = k + 1;
            }
            let n = v.len();
            let mut tail: Vec<char> = Vec::new();
            let mut k: usize = i + 1;
            while k < v.len()
                invariant
                    i < k <= v@.len(),
                    tail@ =~= v@.subrange(i + 1, k as int),
                decreases v@.len() - k,
            {
                tail.push(v[k]);
                k = k + 1;
            }
            proof {
                assert(tail@ =~= v@.skip(i + 1));
            }
            let mut rest = split_tab_fields(tail.as_slice());
            let ghost rv = rest@;
            let mut parts: Vec<Vec<char>> = Vec::new();
            parts.push(head);
            parts.append(&mut rest);
            proof {
                assert(parts@ =~= seq![head] + rv);
                assert(parts@.map_values(|p: Vec<char>| p@) =~= seq![v@.take(i as int)] + rv.map_values(
                    |p: Vec<char>| p@,
                ));
            }
            parts
        },
        None => {
            let mut whole: Vec<char> = Vec::new();
            let mut k: usize = 0;
            while k < v.len()
                invariant
                    k <= v@.len(),
                    whole@ =~= v@.take(k as int),
                decreases v@.len() - k,
            {
                whole.push(v[k]);
                k = k + 1;
            }
            proof {
                assert(whole@ =~= v@);
            }
            let mut parts: Vec<Vec<char>> = Vec::new();
            parts.push(whole);
            proof {
                assert(parts@.map_values(|p: Vec<char>| p@) =~= seq![v@]);
            }
            parts
        },
    }
}


/// Is every character of `v` whitespace?
pub fn chars_blank(v: &[char]) -> (r: bool)
    ensures
        r == is_blank(v@),
{
    let mut i: usize = 0;
    while i < v.len()
        invariant
            i <= v@.len(),
            forall|k: int| 0 <= k < i ==> #[trigger] unicode_whitespace(v@[k]),
        decreases v@.len() - i,
    {
        if !is_whitespace_char(v[i]) {
            return false;
        }
        i = i + 1;
    }
    true
}

fn field_string(parts: &Vec<Vec<char>>, i: usize) -> (f: String)
    ensures
        f@ == field_or_empty(parts@.map_values(|p: Vec<char>| p@), i as int),
{
    if i < parts.len() {
        string_of(parts[i].as_slice())
    } else {
        String::new()
    }
}

/// The entry a manifest line stands for; see [`line_record`].
pub fn parse_manifest_line(line: &str) -> (r: Option<ManifestEntry>)
    ensures
        r matches Some(e) ==> line_record(line@) == Some(entry_fields(e)),
        r is None ==> line_record(line@) is None,
{
    let v = chars_of(line);
    if chars_blank(v.as_slice()) {
        return None;
    }
    let parts = split_tab_fields(v.as_slice());
    if parts.len() < 9 {
        return None;
    }
    let ghost pv = parts@.map_values(|p: Vec<char>| p@);
    let e = ManifestEntry {
        id: field_string(&parts, 0),
        rule: field_string(&parts, 1),
        width: field_string(&parts, 2),
        generations: field_string(&parts, 3),
        boundary: field_string(&parts, 4),
        status: field_string(&parts, 5),
        progress: field_string(&parts, 6),
        timestamp: field_string(&parts, 7),
        filename: field_string(&parts, 8),
        fill: field_string(&parts, 9),
        align: field_string(&parts, 10),
        ic: field_string(&parts, 11),
    };
    proof {
        assert(entry_fields(e) =~= Seq::new(12, |i: int| field_or_empty(pv, i)));
    }
    Some(e)
}

/// The entries of a manifest read as lines: the header line and blank or
/// short lines are skipped.
pub fn parse_manifest(lines: &[String]) -> (entries: Vec<ManifestEntry>)
    ensures
        entries@.map_values(|e: ManifestEntry| entry_fields(e)) == records_from(
            lines@.map_values(|l: String| l@),
            1,
        ),
{
    let ghost lv = lines@.map_values(|l: String| l@);
    let mut entries: Vec<ManifestEntry> = Vec::new();
    if lines.len() == 0 {
        proof {
            assert(entries@.map_values(|e: ManifestEntry| entry_fields(e)) =~= records_from(lv, 1));
        }
        return entries;
    }
    let mut i: usize = 1;
    while i < lines.len()
        invariant
            1 <= i <= lines@.len(),
            lv == lines@.map_values(|l: String| l@),
            records_from(lv, 1) == entries@.map_values(|e: ManifestEntry| entry_fields(e))
                + records_from(lv, i as int),
        decreases lines@.len() - i,
    {
        let ghost before = entries@;
        match parse_manifest_line(lines[i].as_str()) {
            Some(e) => {
                entries.push(e);
                proof {
                    assert(entries@.map_values(|e: ManifestEntry| entry_fields(e)) =~= before.map_values(
                        |e: ManifestEntry| entry_fields(e),
                    ).push(entry_fields(e)));
                }
            },
            None => {},
        }
        i = i + 1;
    }
    proof {
        assert(records_from(lv, i as int) =~= Seq::<Seq<Seq<char>>>::empty());
    }
    entries
}


/// The manifest rewritten without the entries of `filename`: the header,
/// then each remaining entry's fields joined by tabs, one per line.
pub open spec fn manifest_without_text(records: Seq<Seq<Seq<char>>>, filename: Seq<char>) -> Seq<char>
    decreases records.len(),
{
    if records.len() == 0 {
        MANIFEST_HEADER@ + seq!['\n']
    } else {
        let r = records.last();
        manifest_without_text(records.drop_last(), filename) + if r[8] == filename {
            Seq::empty()
        } else {
            tab_joined(r) + seq!['\n']
        }
    }
}

fn push_raw_line(out: &mut String, e: &ManifestEntry)
    ensures
        final(out)@ == old(out)@ + tab_joined(entry_fields(*e)) + seq!['\n'],
{
    let fields: [&String; 12] = [
        &e.id,
        &e.rule,
        &e.width,
        &e.generations,
        &e.boundary,
        &e.status,
        &e.progress,
        &e.timestamp,
        &e.filename,
        &e.fill,
        &e.align,
        &e.ic,
    ];
    let ghost f = entry_fields(*e);
    let ghost start = out@;
    out.append(e.id.as_str());
    proof {
        assert(f.take(1) =~= seq![f[0]]);
        assert(tab_joined(f.take(1)) == f[0]);
    }
    let mut k: usize = 1;
    while k < 12
        invariant
            1 <= k <= 12,
            f == entry_fields(*e),
            forall|j: int| 0 <= j < 12 ==> (#[trigger] fields@[j])@ == f[j],
            out@ == start + tab_joined(f.take(k as int)),
        decreases 12 - k,
    {
        push_char(out, '\t');
        out.append(fields[k].as_str());
        proof {
            assert(f.take(k + 1).drop_last() =~= f.take(k as int));
            assert(f.take(k + 1).last() == f[k as int]);
        }
        k = k + 1;
    }
    push_char(out, '\n');
    proof {
        assert(f.take(12) =~= f);
    }
}

/// The manifest text after deleting the saved run `filename`.
pub fn manifest_without(entries: &[ManifestEntry], filename: &str) -> (text: String)
    ensures
        text@ == manifest_without_text(
            entries@.map_values(|e: ManifestEntry| entry_fields(e)),
            filename@,
        ),
{
    let ghost ev = entries@.map_values(|e: ManifestEntry| entry_fields(e));
    let mut text = String::from_str(MANIFEST_HEADER);
    push_char(&mut text, '\n');
    let target = chars_of(filename);
    let mut i: usize = 0;
    while i < entries.len()
        invariant
            i <= entries@.len(),
            ev == entries@.map_values(|e: ManifestEntry| entry_fields(e)),
            target@ == filename@,
            text@ == manifest_without_text(ev.take(i as int), filename@),
        decreases entries@.len() - i,
    {
        let name = chars_of(entries[i].filename.as_str());
        if !chars_eq(name.as_slice(), target.as_slice()) {
            push_raw_line(&mut text, &entries[i]);
        }
        proof {
            assert(ev.take(i + 1).drop_last() =~= ev.take(i as int));
            assert(ev.take(i + 1).last() == entry_fields(entries@[i as int]));
        }
        i = i + 1;
    }
    proof {
        assert(ev.take(i as int) =~= ev);
    }
    text
}

/// What makes two saved runs the same: rule, size, boundary, padding and
/// initial condition.
#[derive(Clone, Debug)]
pub struct RunKey {
    pub rule: String,
    pub width: String,
    pub generations: String,
    pub boundary: String,
    pub fill: String,
    pub align: String,
    pub ic: String,
}

/// The key of a simulation result saved with the given padding.
pub fn run_key(result: &SimulationResult, fill: PaddingFill, align: PaddingAlign) -> (k: RunKey)
    requires
        result.width == 0 || result.rows@.len() == 0 || result.rows@.len() >= result.width,
    ensures
        k.rule@ == decimal(result.config.rule as nat),
        k.width@ == decimal(result.width as nat),
        k.generations@ == decimal(result.generations as nat),
        k.boundary@ == boundary_name(result.config.boundary),
        k.fill@ == fill_label_text(fill),
        k.align@ == align_label_text(align),
        k.ic@ == first_row_ic_text(result.rows@, result.width as nat, fill),
{
    RunKey {
        rule: u64_text(result.config.rule as u64),
        width: u64_text(result.width as u64),
        generations: u64_text(result.generations as u64),
        boundary: String::from_str(result.config.boundary.name()),
        fill: String::from_str(fill_label(fill)),
        align: String::from_str(align_label(align)),
        ic: first_row_ic(result.rows.as_slice(), result.width, fill),
    }
}

/// Does the manifest record `fields` describe the run `k`?
pub open spec fn same_run(fields: Seq<Seq<char>>, k: RunKey) -> bool {
    &&& fields[1] == k.rule@
    &&& fields[2] == k.width@
    &&& fields[3] == k.generations@
    &&& fields[4] == k.boundary@
    &&& fields[9] == k.fill@
    &&& fields[10] == k.align@
    &&& fields[11] == k.ic@
}

fn string_eq(a: &String, b: &String) -> (r: bool)
    ensures
        r == (a@ == b@),
{
    crate::text::str_eq(a.as_str(), b.as_str())
}

/// The first saved entry that records the same run as `k`, if any.
pub fn find_duplicate(entries: &[ManifestEntry], k: &RunKey) -> (r: Option<usize>)
    ensures
        r matches Some(i) ==> i < entries@.len() && same_run(entry_fields(entries@[i as int]), *k)
            && forall|j: int| 0 <= j < i ==> !same_run(entry_fields(#[trigger] entries@[j]), *k),
        r is None ==> forall|j: int|
            0 <= j < entries@.len() ==> !same_run(entry_fields(#[trigger] entries@[j]), *k),
{
    let mut i: usize = 0;
    while i < entries.len()
        invariant
            i <= entries@.len(),
            forall|j: int| 0 <= j < i ==> !same_run(entry_fields(#[trigger] entries@[j]), *k),
        decreases entries@.len() - i,
    {
        let e = &entries[i];
        if string_eq(&e.rule, &k.rule) && string_eq(&e.width, &k.width) && string_eq(
            &e.generations,
            &k.generations,
        ) && string_eq(&e.boundary, &k.boundary) && string_eq(&e.fill, &k.fill) && string_eq(
            &e.align,
            &k.align,
        ) && string_eq(&e.ic, &k.ic) {
            return Some(i);
        }
        i = i + 1;
    }
    None
}

/// A new manifest entry for a run saved as `filename`: status "Done", its
/// progress the number of generations.
pub fn saved_entry(k: RunKey, job_id: u64, generations: usize, timestamp: String, filename: String) -> (e: ManifestEntry)
    ensures
        entry_fields(e) == seq![
            decimal(job_id as nat),
            k.rule@,
            k.width@,
            k.generations@,
            k.boundary@,
            "Done"@,
            decimal(generations as nat),
            timestamp@,
            filename@,
            k.fill@,
            k.align@,
            k.ic@,
        ],
{
    let e = ManifestEntry {
        id: u64_text(job_id),
        rule: k.rule,
        width: k.width,
        generations: k.generations,
        boundary: k.boundary,
        status: String::from_str("Done"),
        progress: u64_text(generations as u64),
        timestamp,
        filename,
        fill: k.fill,
        align: k.align,
        ic: k.ic,
    };
    proof {
        assert(entry_fields(e) =~= seq![
            decimal(job_id as nat),
            k.rule@,
            k.width@,
            k.generations@,
            k.boundary@,
            "Done"@,
            decimal(generations as nat),
            timestamp@,
            filename@,
            k.fill@,
            k.align@,
            k.ic@,
        ]);
    }
    e
}


/// The JSON keys of a manifest entry, in column order.
pub open spec fn json_key(i: int) -> Seq<char> {
    if i == 0 { "id"@ }
    else if i == 1 { "rule"@ }
    else if i == 2 { "width"@ }
    else if i == 3 { "generations"@ }
    else if i == 4 { "boundary"@ }
    else if i == 5 { "status"@ }
    else if i == 6 { "progress"@ }
    else if i == 7 { "timestamp"@ }
    else if i == 8 { "filename"@ }
    else if i == 9 { "fill"@ }
    else if i == 10 { "align"@ }
    else { "ic"@ }
}

fn json_key_str(i: usize) -> (k: &'static str)
    requires
        i < 12,
    ensures
        k@ == json_key(i as int),
{
    match i {
        0 => "id",
        1 => "rule",
        2 => "width",
        3 => "generations",
        4 => "boundary",
        5 => "status",
        6 => "progress",
        7 => "timestamp",
        8 => "filename",
        9 => "fill",
        10 => "align",
        _ => "ic",
    }
}

/// The first `n` `"key":"value"` members of an entry's JSON object.
pub open spec fn json_members(fields: Seq<Seq<char>>, n: nat) -> Seq<char>
    decreases n,
{
    if n == 0 {
        Seq::empty()
    } else {
        json_members(fields, (n - 1) as nat) + (if n > 1 { ","@ } else { Seq::empty() }) + "\""@
            + json_key(n - 1) + "\":\""@ + json_escaped(fields[n - 1]) + "\""@
    }
}

/// The JSON object of one manifest entry, every value a string.
pub open spec fn entry_json(fields: Seq<Seq<char>>) -> Seq<char> {
    "{"@ + json_members(fields, 12) + "}"@
}

/// The first `n` entries' objects, separated by commas.
pub open spec fn entries_json(records: Seq<Seq<Seq<char>>>, n: nat) -> Seq<char>
    decreases n,
{
    if n == 0 {
        Seq::empty()
    } else {
        entries_json(records, (n - 1) as nat) + (if n > 1 { ","@ } else { Seq::empty() })
            + entry_json(records[n - 1])
    }
}

#[verifier::rlimit(40)]
fn push_entry_json(out: &mut String, e: &ManifestEntry)
    ensures
        final(out)@ == old(out)@ + entry_json(entry_fields(*e)),
{
    let fields: [&String; 12] = [
        &e.id,
        &e.rule,
        &e.width,
        &e.generations,
        &e.boundary,
        &e.status,
        &e.progress,
        &e.timestamp,
        &e.filename,
        &e.fill,
        &e.align,
        &e.ic,
    ];
    let ghost f = entry_fields(*e);
    let ghost start = out@;
    out.append("{");
    let mut k: usize = 0;
    while k < 12
        invariant
            k <= 12,
            f == entry_fields(*e),
            forall|j: int| 0 <= j < 12 ==> (#[trigger] fields@[j])@ == f[j],
            out@ == start + "{"@ + json_members(f, k as nat),
        decreases 12 - k,
    {
        if k > 0 {
            out.append(",");
        }
        out.append("\"");
        out.append(json_key_str(k));
        out.append("\":\"");
        let v = json_str_escape(fields[k].as_str());
        out.append(v.as_str());
        out.append("\"");
        k = k + 1;
    }
    out.append("}");
}

/// The JSON array of the given entries, baked into the gallery index.
pub fn gallery_json(entries: &[&ManifestEntry]) -> (text: String)
    ensures
        text@ == "["@ + entries_json(
            entries@.map_values(|e: &ManifestEntry| entry_fields(*e)),
            entries@.len(),
        ) + "]"@,
{
    let ghost ev = entries@.map_values(|e: &ManifestEntry| entry_fields(*e));
    let mut text = String::from_str("[");
    let mut i: usize = 0;
    while i < entries.len()
        invariant
            i <= entries@.len(),
            ev == entries@.map_values(|e: &ManifestEntry| entry_fields(*e)),
            text@ == "["@ + entries_json(ev, i as nat),
        decreases entries@.len() - i,
    {
        if i > 0 {
            text.append(",");
        }
        push_entry_json(&mut text, entries[i]);
        i = i + 1;
    }
    text.append("]");
    text
}


/// No field of `fs` holds a tab.
pub open spec fn tab_free(fs: Seq<Seq<char>>) -> bool {
    forall|k: int, j: int| 0 <= k < fs.len() && 0 <= j < fs[k].len() ==> #[trigger] fs[k][j] != '\t'
}

/// Splitting after a last, tab-free field adds that field to the split.
proof fn lemma_split_tabs_append(x: Seq<char>, b: Seq<char>)
    requires
        forall|j: int| 0 <= j < b.len() ==> b[j] != '\t',
    ensures
        split_tabs(x + seq!['\t'] + b) == split_tabs(x).push(b),
    decreases x.len(),
{
    let s = x + seq!['\t'] + b;
    lemma_first_index_of(x, '\t');
    lemma_first_index_of(b, '\t');
    match first_index_of(x, '\t') {
        Some(i) => {
            lemma_first_index_at(s, '\t', i);
            assert(s.take(i) =~= x.take(i));
            assert(s.skip(i + 1) =~= x.skip(i + 1) + seq!['\t'] + b);
            lemma_split_tabs_append(x.skip(i + 1), b);
            assert(split_tabs(x) == seq![x.take(i)] + split_tabs(x.skip(i + 1)));
            assert((seq![x.take(i)] + split_tabs(x.skip(i + 1))).push(b) =~= seq![x.take(i)]
                + split_tabs(x.skip(i + 1)).push(b));
        },
        None => {
            lemma_first_index_at(s, '\t', x.len() as int);
            assert(s.take(x.len() as int) =~= x);
            assert(s.skip(x.len() as int + 1) =~= b);
            assert(split_tabs(x) == seq![x]);
            assert(split_tabs(b) == seq![b]);
            assert(seq![x] + seq![b] =~= seq![x].push(b));
        },
    }
}

/// Tab-free fields joined by tabs split back into the same fields.
proof fn lemma_split_tab_joined(fs: Seq<Seq<char>>)
    requires
        fs.len() >= 1,
        tab_free(fs),
    ensures
        split_tabs(tab_joined(fs)) == fs,
    decreases fs.len(),
{
    if fs.len() == 1 {
        lemma_first_index_of(fs[0], '\t');
        assert forall|j: int| 0 <= j < fs[0].len() implies fs[0][j] != '\t' by {
            assert(fs[0][j] == fs[0][j]);
        }
        assert(fs =~= seq![fs[0]]);
    } else {
        let init = fs.drop_last();
        assert forall|k: int, j: int| 0 <= k < init.len() && 0 <= j < init[k].len() implies #[trigger] init[k][j]
            != '\t' by {
            assert(init[k] == fs[k]);
        }
        lemma_split_tab_joined(init);
        assert forall|j: int| 0 <= j < fs.last().len() implies fs.last()[j] != '\t' by {
            assert(fs[fs.len() - 1][j] != '\t');
        }
        lemma_split_tabs_append(tab_joined(init), fs.last());
        assert(init.push(fs.last()) =~= fs);
    }
}

/// Every field character of `fs` occurs in `tab_joined(fs)`.
proof fn lemma_tab_joined_holds(fs: Seq<Seq<char>>, k: int, j: int)
    requires
        0 <= k < fs.len(),
        0 <= j < fs[k].len(),
    ensures
        exists|p: int| 0 <= p < tab_joined(fs).len() && tab_joined(fs)[p] == fs[k][j],
    decreases fs.len(),
{
    if fs.len() == 1 {
        assert(tab_joined(fs)[j] == fs[k][j]);
    } else {
        let init = fs.drop_last();
        let t = tab_joined(fs);
        let ti = tab_joined(init);
        assert(t == ti + seq!['\t'] + fs.last());
        if k < fs.len() - 1 {
            lemma_tab_joined_holds(init, k, j);
            let p = choose|p: int| 0 <= p < ti.len() && ti[p] == init[k][j];
            assert(t[p] == fs[k][j]);
        } else {
            assert(t[ti.len() + 1 + j] == fs[k][j]);
        }
    }
}

/// Every character of `tab_joined(fs)` is a tab or a character of a field.
proof fn lemma_tab_joined_chars(fs: Seq<Seq<char>>, p: int)
    requires
        0 <= p < tab_joined(fs).len(),
    ensures
        tab_joined(fs)[p] == '\t' || exists|k: int, j: int|
            0 <= k < fs.len() && 0 <= j < fs[k].len() && #[trigger] fs[k][j] == tab_joined(fs)[p],
    decreases fs.len(),
{
    if fs.len() == 1 {
        assert(fs[0][p] == tab_joined(fs)[p]);
    } else if fs.len() > 1 {
        let init = fs.drop_last();
        let ti = tab_joined(init);
        assert(tab_joined(fs) == ti + seq!['\t'] + fs.last());
        if p < ti.len() {
            lemma_tab_joined_chars(init, p);
            if ti[p] != '\t' {
                let (k, j) = choose|k: int, j: int|
                    0 <= k < init.len() && 0 <= j < init[k].len() && #[trigger] init[k][j] == ti[p];
                assert(fs[k][j] == init[k][j]);
            }
        } else if p > ti.len() {
            let j = p - ti.len() - 1;
            assert(fs[fs.len() - 1][j] == tab_joined(fs)[p]);
        }
    }
}

/// The fields of a manifest line are free of tabs, and there are at least
/// one of them.
proof fn lemma_split_tabs_fields(s: Seq<char>)
    ensures
        split_tabs(s).len() >= 1,
        tab_free(split_tabs(s)),
    decreases s.len(),
{
    lemma_first_index_of(s, '\t');
    match first_index_of(s, '\t') {
        Some(i) => {
            lemma_split_tabs_fields(s.skip(i + 1));
            let rest = split_tabs(s.skip(i + 1));
            let all = seq![s.take(i)] + rest;
            assert forall|k: int, j: int| 0 <= k < all.len() && 0 <= j < all[k].len() implies #[trigger] all[k][j]
                != '\t' by {
                if k > 0 {
                    assert(all[k] == rest[k - 1]);
                    assert(rest[k - 1][j] != '\t');
                } else {
                    assert(all[0][j] == s[j]);
                }
            }
        },
        None => {
            assert forall|k: int, j: int| 0 <= k < seq![s].len() && 0 <= j < seq![s][k].len() implies #[trigger] seq![
                s,
            ][k][j] != '\t' by {
                assert(seq![s][k] == s);
            }
        },
    }
}

/// A record of twelve tab-free fields, not all blank, written as one
/// tab-separated line, reads back as the same record.
pub proof fn lemma_record_line_reads_back(r: Seq<Seq<char>>)
    requires
        r.len() == 12,
        tab_free(r),
        !is_blank(tab_joined(r)),
    ensures
        line_record(tab_joined(r)) == Some(r),
{
    lemma_split_tab_joined(r);
    assert(Seq::new(12, |i: int| field_or_empty(r, i)) =~= r);
}

/// Read-after-write for the manifest: the line written for an entry holds
/// no line break before its end, and read back (without the line break)
/// gives the entry's fields with tabs and line breaks turned into spaces;
/// an entry whose fields are all whitespace writes a blank line, which
/// readers skip.
pub proof fn lemma_manifest_line_reads_back(e: ManifestEntry)
    requires
        exists|k: int, j: int|
            0 <= k < 12 && 0 <= j < entry_fields(e)[k].len() && !unicode_whitespace(
                #[trigger] entry_fields(e)[k][j],
            ),
    ensures
        manifest_line_text(e).last() == '\n',
        forall|p: int|
            0 <= p < manifest_line_text(e).len() - 1 ==> #[trigger] manifest_line_text(e)[p] != '\n'
                && manifest_line_text(e)[p] != '\r',
        line_record(manifest_line_text(e).drop_last()) == Some(
            entry_fields(e).map_values(|f: Seq<char>| tsv_field(f)),
        ),
{
    let fs = entry_fields(e);
    let sane = fs.map_values(|f: Seq<char>| tsv_field(f));
    let line = tab_joined(sane);
    assert(manifest_line_text(e).drop_last() =~= line);
    assert forall|k: int, j: int| 0 <= k < sane.len() && 0 <= j < sane[k].len() implies #[trigger] sane[k][j]
        != '\t' && sane[k][j] != '\n' && sane[k][j] != '\r' by {
        assert(sane[k] == tsv_field(fs[k]));
    }
    let (k, j) = choose|k: int, j: int|
        0 <= k < 12 && 0 <= j < fs[k].len() && !unicode_whitespace(#[trigger] fs[k][j]);
    assert(sane[k] == tsv_field(fs[k]));
    assert(sane[k][j] == fs[k][j]);
    lemma_tab_joined_holds(sane, k, j);
    let p = choose|p: int| 0 <= p < line.len() && line[p] == sane[k][j];
    assert(!unicode_whitespace(line[p]));
    lemma_record_line_reads_back(sane);
    assert forall|p: int| 0 <= p < manifest_line_text(e).len() - 1 implies #[trigger] manifest_line_text(
        e,
    )[p] != '\n' && manifest_line_text(e)[p] != '\r' by {
        assert(manifest_line_text(e)[p] == line[p]);
        lemma_tab_joined_chars(sane, p);
    }
}

/// Rewriting the manifest keeps the entries it does not delete: a record
/// read from a line, written again as its fields joined by tabs, reads
/// back as the same record (unless every field is blank).
pub proof fn lemma_rewritten_record_reads_back(line: Seq<char>, r: Seq<Seq<char>>)
    requires
        line_record(line) == Some(r),
        !is_blank(tab_joined(r)),
    ensures
        line_record(tab_joined(r)) == Some(r),
{
    let parts = split_tabs(line);
    lemma_split_tabs_fields(line);
    assert forall|k: int, j: int| 0 <= k < r.len() && 0 <= j < r[k].len() implies #[trigger] r[k][j] != '\t' by {
        assert(r[k] == field_or_empty(parts, k));
        if k < parts.len() {
            assert(parts[k][j] != '\t');
        }
    }
    lemma_record_line_reads_back(r);
}


/// Do two manifest records describe the same run (rule, size, boundary,
/// padding and initial condition)?
pub open spec fn same_key_fields(a: Seq<Seq<char>>, b: Seq<Seq<char>>) -> bool {
    &&& a[1] == b[1]
    &&& a[2] == b[2]
    &&& a[3] == b[3]
    &&& a[4] == b[4]
    &&& a[9] == b[9]
    &&& a[10] == b[10]
    &&& a[11] == b[11]
}

/// No two records describe the same run.
pub open spec fn no_duplicate_runs(records: Seq<Seq<Seq<char>>>) -> bool {
    forall|i: int, j: int|
        0 <= i < j < records.len() ==> !same_key_fields(#[trigger] records[i], #[trigger] records[j])
}

/// Saving only runs that [`find_duplicate`] does not find keeps the
/// manifest free of duplicates: if no record matches the key `k` and the
/// new entry records `k` (as [`saved_entry`] makes it), the manifest with
/// the new entry still has no two records of the same run.
pub proof fn lemma_save_keeps_runs_unique(records: Seq<Seq<Seq<char>>>, k: RunKey, new: Seq<Seq<char>>)
    requires
        no_duplicate_runs(records),
        forall|j: int| 0 <= j < records.len() ==> !same_run(#[trigger] records[j], k),
        same_run(new, k),
    ensures
        no_duplicate_runs(records.push(new)),
{
    let all = records.push(new);
    assert forall|i: int, j: int| 0 <= i < j < all.len() implies !same_key_fields(
        #[trigger] all[i],
        #[trigger] all[j],
    ) by {
        assert(all[i] == records[i]);
        if j < records.len() {
            assert(all[j] == records[j]);
        } else {
            assert(all[j] == new);
            assert(!same_run(records[i], k));
        }
    }
}


/// Reading one more line adds that line's record, if it has one, after the
/// records of the lines before it.
proof fn lemma_records_push(lines: Seq<Seq<char>>, line: Seq<char>, start: int)
    requires
        0 <= start <= lines.len(),
    ensures
        records_from(lines.push(line), start) == records_from(lines, start) + match line_record(line) {
            Some(r) => seq![r],
            None => Seq::<Seq<Seq<char>>>::empty(),
        },
    decreases lines.len() - start,
{
    let all = lines.push(line);
    let tail = match line_record(line) {
        Some(r) => seq![r],
        None => Seq::<Seq<Seq<char>>>::empty(),
    };
    if start == lines.len() {
        assert(all[start] == line);
        assert(records_from(all, start + 1) == Seq::<Seq<Seq<char>>>::empty());
        assert(records_from(lines, start) == Seq::<Seq<Seq<char>>>::empty());
        match line_record(line) {
            Some(r) => {
                assert(seq![r] + Seq::<Seq<Seq<char>>>::empty() =~= seq![r]);
            },
            None => {},
        }
        assert(Seq::<Seq<Seq<char>>>::empty() + tail =~= tail);
    } else {
        lemma_records_push(lines, line, start + 1);
        assert(all[start] == lines[start]);
        match line_record(lines[start]) {
            Some(r) => {
                assert(seq![r] + (records_from(lines, start + 1) + tail) =~= (seq![r]
                    + records_from(lines, start + 1)) + tail);
            },
            None => {},
        }
    }
}

/// Append, then read the manifest again: after a header line and any lines
/// already there, the line written for an entry (without its line break,
/// as lines are read) adds exactly that entry's record, its fields with
/// tabs and line breaks turned into spaces, after the records read before;
/// an entry whose fields are all whitespace writes a blank line, which
/// readers skip.
pub proof fn lemma_manifest_append_reads_back(lines: Seq<Seq<char>>, e: ManifestEntry)
    requires
        lines.len() >= 1,
        exists|k: int, j: int|
            0 <= k < 12 && 0 <= j < entry_fields(e)[k].len() && !unicode_whitespace(
                #[trigger] entry_fields(e)[k][j],
            ),
    ensures
        records_from(lines.push(manifest_line_text(e).drop_last()), 1) == records_from(lines, 1).push(
            entry_fields(e).map_values(|f: Seq<char>| tsv_field(f)),
        ),
{
    let line = manifest_line_text(e).drop_last();
    let sane = entry_fields(e).map_values(|f: Seq<char>| tsv_field(f));
    lemma_manifest_line_reads_back(e);
    lemma_records_push(lines, line, 1);
    assert(records_from(lines, 1) + seq![sane] =~= records_from(lines, 1).push(sane));
}


/// A saved entry counts as the same run as a key exactly when all seven
/// describing fields agree: rule, width, generations, boundary, fill,
/// alignment and initial condition. An entry that differs from the key in
/// any of them (a rule 90 run against a saved rule 30 run, say) is never
/// reported as a duplicate, and the id, status, progress, time and file
/// name play no part.
pub proof fn lemma_duplicate_is_same_run(e: ManifestEntry, k: RunKey)
    ensures
        same_run(entry_fields(e), k) <==> (e.rule@ == k.rule@ && e.width@ == k.width@
            && e.generations@ == k.generations@ && e.boundary@ == k.boundary@ && e.fill@ == k.fill@
            && e.align@ == k.align@ && e.ic@ == k.ic@),
{
}

/// Keys of runs that differ in rule, size or boundary differ: the key's
/// text fields are the decimal notation of the numbers and the name of the
/// boundary, so two results give equal keys only when those agree.
pub proof fn lemma_run_keys_tell_runs_apart(a: RunKey, b: RunKey, ra: SimulationResult, rb: SimulationResult)
    requires
        a.rule@ == decimal(ra.config.rule as nat),
        a.width@ == decimal(ra.width as nat),
        a.generations@ == decimal(ra.generations as nat),
        a.boundary@ == boundary_name(ra.config.boundary),
        b.rule@ == decimal(rb.config.rule as nat),
        b.width@ == decimal(rb.width as nat),
        b.generations@ == decimal(rb.generations as nat),
        b.boundary@ == boundary_name(rb.config.boundary),
        a.rule@ == b.rule@,
        a.width@ == b.width@,
        a.generations@ == b.generations@,
        a.boundary@ == b.boundary@,
    ensures
        ra.config.rule == rb.config.rule,
        ra.width == rb.width,
        ra.generations == rb.generations,
        ra.config.boundary == rb.config.boundary,
{
    crate::gallery::lemma_decimal_injective(ra.config.rule as nat, rb.config.rule as nat);
    crate::gallery::lemma_decimal_injective(ra.width as nat, rb.width as nat);
    crate::gallery::lemma_decimal_injective(ra.generations as nat, rb.generations as nat);
    reveal_strlit("ZeroPadded");
    reveal_strlit("Wrap");
    assert("Wrap"@.len() != "ZeroPadded"@.len());
}


/// The gallery's JSON object of an entry names its twelve fields, in
/// manifest column order, each value the field's text escaped as a JSON
/// string: "id", "rule", "width", "generations", "boundary", "status",
/// "progress", "timestamp", "filename", "fill", "align", "ic".
pub proof fn lemma_entry_json_fields(fields: Seq<Seq<char>>)
    ensures
        entry_json(fields) == "{"@ + ("\""@ + "id"@ + "\":\""@ + json_escaped(fields[0]) + "\""@ + ","@ + "\""@ + "rule"@ + "\":\""@ + json_escaped(fields[1]) + "\""@ + ","@ + "\""@ + "width"@ + "\":\""@ + json_escaped(fields[2]) + "\""@ + ","@ + "\""@ + "generations"@ + "\":\""@ + json_escaped(fields[3]) + "\""@ + ","@ + "\""@ + "boundary"@ + "\":\""@ + json_escaped(fields[4]) + "\""@ + ","@ + "\""@ + "status"@ + "\":\""@ + json_escaped(fields[5]) + "\""@ + ","@ + "\""@ + "progress"@ + "\":\""@ + json_escaped(fields[6]) + "\""@ + ","@ + "\""@ + "timestamp"@ + "\":\""@ + json_escaped(fields[7]) + "\""@ + ","@ + "\""@ + "filename"@ + "\":\""@ + json_escaped(fields[8]) + "\""@ + ","@ + "\""@ + "fill"@ + "\":\""@ + json_escaped(fields[9]) + "\""@ + ","@ + "\""@ + "align"@ + "\":\""@ + json_escaped(fields[10]) + "\""@ + ","@ + "\""@ + "ic"@ + "\":\""@ + json_escaped(fields[11]) + "\""@) + "}"@,
{
    assert(json_members(fields, 0) == Seq::<char>::empty());
    assert(json_key(0) == "id"@);
    assert(json_members(fields, 1) == Seq::<char>::empty() + Seq::<char>::empty() + "\""@ + "id"@
        + "\":\""@ + json_escaped(fields[0]) + "\""@);
    assert(json_members(fields, 1) =~= "\""@ + "id"@ + "\":\""@ + json_escaped(fields[0]) + "\""@);
    assert(json_members(fields, 2) == json_members(fields, 1) + ","@ + "\""@ + "rule"@ + "\":\""@ + json_escaped(fields[1]) + "\""@);
    assert(json_members(fields, 3) == json_members(fields, 2) + ","@ + "\""@ + "width"@ + "\":\""@ + json_escaped(fields[2]) + "\""@);
    assert(json_members(fields, 4) == json_members(fields, 3) + ","@ + "\""@ + "generations"@ + "\":\""@ + json_escaped(fields[3]) + "\""@);
    assert(json_members(fields, 5) == json_members(fields, 4) + ","@ + "\""@ + "boundary"@ + "\":\""@ + json_escaped(fields[4]) + "\""@);
    assert(json_members(fields, 6) == json_members(fields, 5) + ","@ + "\""@ + "status"@ + "\":\""@ + json_escaped(fields[5]) + "\""@);
    assert(json_members(fields, 7) == json_members(fields, 6) + ","@ + "\""@ + "progress"@ + "\":\""@ + json_escaped(fields[6]) + "\""@);
    assert(json_members(fields, 8) == json_members(fields, 7) + ","@ + "\""@ + "timestamp"@ + "\":\""@ + json_escaped(fields[7]) + "\""@);
    assert(json_members(fields, 9) == json_members(fields, 8) + ","@ + "\""@ + "filename"@ + "\":\""@ + json_escaped(fields[8]) + "\""@);
    assert(json_members(fields, 10) == json_members(fields, 9) + ","@ + "\""@ + "fill"@ + "\":\""@ + json_escaped(fields[9]) + "\""@);
    assert(json_members(fields, 11) == json_members(fields, 10) + ","@ + "\""@ + "align"@ + "\":\""@ + json_escaped(fields[10]) + "\""@);
    assert(json_members(fields, 12) == json_members(fields, 11) + ","@ + "\""@ + "ic"@ + "\":\""@ + json_escaped(fields[11]) + "\""@);
}

} // verus!
