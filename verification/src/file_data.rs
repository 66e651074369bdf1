//! The per-file data of the browser: definitions, occurrence rows and symbol documentation.
use vstd::prelude::*;

use crate::columns::{browser_column, utf16_column};
use crate::assoc::CharMap;
use crate::render::{consolidate_render_occurrences, consolidated, lemma_kept_for_witness, OccurrenceRow};
use crate::definitions::{is_local_symbol, keep_first, Definition, Definitions};
use crate::index::{
    encoding_of, occurrence_range, range_of, Document, Occurrence, SymbolInformation, TypedRange,
    DEFINITION_ROLE,
};
use crate::text::{
    chars_of, first_index_of, joined, lemma_first_index_of_push, lemma_lines_shorter, lines_of, push_all, split_lines, string_of, trim, trimmed,
    views,
};

verus! {

/// Line `k` of `lines`, or the empty line past the end.
pub open spec fn line_or_empty(lines: Seq<Seq<char>>, k: int) -> Seq<char> {
    if 0 <= k < lines.len() {
        lines[k]
    } else {
        Seq::empty()
    }
}

/// The definition that occurrence `o` of document `file` records, if it records one: a
/// non-empty symbol with the definition role and a readable range.
pub open spec fn definition_of(file: int, o: Occurrence, lines: Seq<Seq<char>>, raw_encoding: i32) -> Option<
    (Seq<char>, Definition),
> {
    if o.symbol@.len() != 0 && o.symbol_roles & DEFINITION_ROLE != 0 {
        match range_of(o.typed_range, o.range@) {
            Some(r) => Some(
                (
                    o.symbol@,
                    Definition {
                        file: file as usize,
                        line: r.start_line,
                        character: browser_column(
                            line_or_empty(lines, r.start_line as int),
                            r.start_character as int,
                            encoding_of(raw_encoding),
                        ) as usize,
                    },
                ),
            ),
            None => None,
        }
    } else {
        None
    }
}

/// The definitions that the occurrences `occs` of document `file` record, in order.
pub open spec fn document_definitions(
    file: int,
    occs: Seq<Occurrence>,
    lines: Seq<Seq<char>>,
    raw_encoding: i32,
) -> Seq<(Seq<char>, Definition)>
    decreases occs.len(),
{
    if occs.len() == 0 {
        Seq::empty()
    } else {
        let prev = document_definitions(file, occs.drop_last(), lines, raw_encoding);
        match definition_of(file, occs.last(), lines, raw_encoding) {
            Some(d) => prev.push(d),
            None => prev,
        }
    }
}

/// The definitions that all documents record, in document order.
pub open spec fn index_definitions(docs: Seq<Document>, sources: Seq<Seq<char>>) -> Seq<
    (Seq<char>, Definition),
>
    decreases docs.len(),
{
    if docs.len() == 0 {
        Seq::empty()
    } else {
        let f = docs.len() - 1;
        index_definitions(docs.drop_last(), sources) + document_definitions(
            f,
            docs[f].occurrences@,
            lines_of(sources[f]),
            docs[f].position_encoding,
        )
    }
}

/// The first definition of each global symbol among `defs`.
pub open spec fn first_global(defs: Seq<(Seq<char>, Definition)>) -> Map<Seq<char>, Definition>
    decreases defs.len(),
{
    if defs.len() == 0 {
        Map::empty()
    } else {
        let prev = first_global(defs.drop_last());
        let (s, d) = defs.last();
        if is_local_symbol(s) {
            prev
        } else {
            keep_first(prev, s, d)
        }
    }
}

/// The first definition of each symbol local to document `file` among `defs`.
pub open spec fn first_local(defs: Seq<(Seq<char>, Definition)>, file: int) -> Map<
    Seq<char>,
    Definition,
>
    decreases defs.len(),
{
    if defs.len() == 0 {
        Map::empty()
    } else {
        let prev = first_local(defs.drop_last(), file);
        let (s, d) = defs.last();
        if is_local_symbol(s) && d.file == file {
            keep_first(prev, s, d)
        } else {
            prev
        }
    }
}

/// Collects the first definition of every symbol in `documents`, reading columns from
/// `sources[i]`, the text of document `i`.
pub fn collect_definitions(documents: &Vec<Document>, sources: &Vec<String>) -> (out: Definitions)
    requires
        sources@.len() == documents@.len(),
        forall|i: int| 0 <= i < sources@.len() ==> #[trigger] sources@[i]@.len() <= usize::MAX / 4,
    ensures
        out.file_count() == documents@.len(),
        out.global_view() == first_global(
            index_definitions(documents@, sources@.map_values(|s: String| s@)),
        ),
        forall|f: int|
            0 <= f < documents@.len() ==> #[trigger] out.local_view(f) == first_local(
                index_definitions(documents@, sources@.map_values(|s: String| s@)),
                f,
            ),
{
    let ghost texts = sources@.map_values(|s: String| s@);
    let mut result = Definitions::new(documents.len());
    let mut file: usize = 0;
    while file < documents.len()
        invariant
            texts == sources@.map_values(|s: String| s@),
            sources@.len() == documents@.len(),
            forall|i: int| 0 <= i < sources@.len() ==> #[trigger] sources@[i]@.len() <= usize::MAX / 4,
            file <= documents@.len(),
            result.file_count() == documents@.len(),
            result.global_view() == first_global(index_definitions(documents@.take(file as int), texts)),
            forall|f: int|
                0 <= f < documents@.len() ==> #[trigger] result.local_view(f) == first_local(
                    index_definitions(documents@.take(file as int), texts),
                    f,
                ),
        decreases documents@.len() - file,
    {
        let document = &documents[file];
        let source = chars_of(sources[file].as_str());
        let lines = split_lines(&source);
        proof {
            lemma_lines_shorter(source@);
            assert forall|k: int| 0 <= k < lines@.len() implies #[trigger] lines@[k]@.len() <= source@.len() by {
                assert(views(lines@)[k] == lines@[k]@);
            }
        }
        let encoding = crate::index::document_encoding(document.position_encoding);
        let ghost done = index_definitions(documents@.take(file as int), texts);
        let mut j: usize = 0;
        while j < document.occurrences.len()
            invariant
                file < documents@.len(),
                texts.len() == documents@.len(),
                document == documents@[file as int],
                views(lines@) == lines_of(texts[file as int]),
                source@ == texts[file as int],
                source@.len() <= usize::MAX / 4,
                forall|k: int| 0 <= k < lines@.len() ==> #[trigger] lines@[k]@.len() <= source@.len(),
                encoding == encoding_of(document.position_encoding),
                j <= document.occurrences@.len(),
                result.file_count() == documents@.len(),
                result.global_view() == first_global(
                    done + document_definitions(
                        file as int,
                        document.occurrences@.take(j as int),
                        lines_of(texts[file as int]),
                        document.position_encoding,
                    ),
                ),
                forall|f: int|
                    0 <= f < documents@.len() ==> #[trigger] result.local_view(f) == first_local(
                        done + document_definitions(
                            file as int,
                            document.occurrences@.take(j as int),
                            lines_of(texts[file as int]),
                            document.position_encoding,
                        ),
                        f,
                    ),
            decreases document.occurrences@.len() - j,
        {
            let occurrence = &document.occurrences[j];
            let ghost lines_spec = lines_of(texts[file as int]);
            let ghost before = done + document_definitions(
                file as int,
                document.occurrences@.take(j as int),
                lines_spec,
                document.position_encoding,
            );
            proof {
                assert(document.occurrences@.take(j + 1).drop_last() =~= document.occurrences@.take(j as int));
                assert(document.occurrences@.take(j + 1).last() == *occurrence);
            }
            let symbol = chars_of(occurrence.symbol.as_str());
            if symbol.len() != 0 && occurrence.symbol_roles & DEFINITION_ROLE != 0 {
                if let Some(range) = occurrence_range(occurrence) {
                    let character = if range.start_line < lines.len() {
                        proof {
                            assert(lines@[range.start_line as int]@ == lines_spec[range.start_line as int]);
                        }
                        utf16_column(&lines[range.start_line], range.start_character, encoding)
                    } else {
                        utf16_column(&[], range.start_character, encoding)
                    };
                    let definition = Definition { file, line: range.start_line, character };
                    proof {
                        assert(lines_spec.len() == lines@.len());
                        assert(definition_of(file as int, *occurrence, lines_spec, document.position_encoding)
                            == Some((occurrence.symbol@, definition)));
                        assert(before.push((occurrence.symbol@, definition)) =~= done + document_definitions(
                            file as int,
                            document.occurrences@.take(j + 1),
                            lines_spec,
                            document.position_encoding,
                        ));
                        assert(before.push((occurrence.symbol@, definition)).drop_last() == before);
                    }
                    result.insert(file, occurrence.symbol.as_str(), definition);
                } else {
                    proof {
                        assert(before =~= done + document_definitions(
                            file as int,
                            document.occurrences@.take(j + 1),
                            lines_spec,
                            document.position_encoding,
                        ));
                    }
                }
            } else {
                proof {
                    assert(before =~= done + document_definitions(
                        file as int,
                        document.occurrences@.take(j + 1),
                        lines_spec,
                        document.position_encoding,
                    ));
                }
            }
            j += 1;
        }
        proof {
            assert(document.occurrences@.take(j as int) =~= document.occurrences@);
            assert(documents@.take(file + 1).drop_last() =~= documents@.take(file as int));
            assert(documents@.take(file + 1).last() == *document);
        }
        file += 1;
    }
    proof {
        assert(documents@.take(documents@.len() as int) =~= documents@);
    }
    result
}

/// The trimmed sections of `sections` that are not empty, in order.
pub open spec fn kept_sections(sections: Seq<Seq<char>>) -> Seq<Seq<char>>
    decreases sections.len(),
{
    if sections.len() == 0 {
        Seq::empty()
    } else {
        let prev = kept_sections(sections.drop_last());
        let t = trimmed(sections.last());
        if t.len() == 0 {
            prev
        } else {
            prev.push(t)
        }
    }
}

/// The paragraph separator of symbol documentation.
pub open spec fn paragraph_break() -> Seq<char> {
    seq!['\n', '\n']
}

/// The markdown of documentation sections: the trimmed non-empty sections, a blank line apart.
pub open spec fn markdown_of(sections: Seq<Seq<char>>) -> Seq<char> {
    joined(kept_sections(sections), paragraph_break())
}

/// The strings' views.
pub open spec fn string_views(v: Seq<String>) -> Seq<Seq<char>> {
    v.map_values(|s: String| s@)
}

/// The documentation of each symbol among `infos`: where a symbol has several informations with
/// documentation, the last one counts; symbols without a name or without documentation have none.
pub open spec fn documented(infos: Seq<SymbolInformation>) -> Map<Seq<char>, Seq<char>>
    decreases infos.len(),
{
    if infos.len() == 0 {
        Map::empty()
    } else {
        let prev = documented(infos.drop_last());
        let info = infos.last();
        let md = markdown_of(string_views(info.documentation@));
        if info.symbol@.len() != 0 && md.len() != 0 {
            prev.insert(info.symbol@, md)
        } else {
            prev
        }
    }
}

/// `table` lists the map `m`: each key once, with its value.
pub open spec fn lists_map(table: Seq<(String, String)>, m: Map<Seq<char>, Seq<char>>) -> bool {
    &&& forall|i: int, j: int| 0 <= i < j < table.len() ==> table[i].0@ != table[j].0@
    &&& forall|i: int|
        0 <= i < table.len() ==> m.contains_key(#[trigger] table[i].0@) && m[table[i].0@]
            == table[i].1@
    &&& forall|k: Seq<char>|
        #[trigger] m.contains_key(k) ==> exists|i: int| 0 <= i < table.len() && table[i].0@ == k
}

fn markdown(sections: &Vec<String>) -> (out: Vec<char>)
    ensures
        out@ == markdown_of(string_views(sections@)),
{
    let mut out: Vec<char> = Vec::new();
    let mut started = false;
    let mut i: usize = 0;
    while i < sections.len()
        invariant
            i <= sections@.len(),
            started == (kept_sections(string_views(sections@.take(i as int))).len() > 0),
            out@ == joined(kept_sections(string_views(sections@.take(i as int))), paragraph_break()),
        decreases sections@.len() - i,
    {
        let ghost prev = kept_sections(string_views(sections@.take(i as int)));
        proof {
            assert(string_views(sections@.take(i + 1)).drop_last() =~= string_views(sections@.take(i as int)));
        }
        let section = chars_of(sections[i].as_str());
        let t = trim(&section);
        if t.len() != 0 {
            if started {
                out.push('\n');
                out.push('\n');
            }
            push_all(&mut out, &t);
            proof {
                let next = prev.push(t@);
                assert(next.drop_last() =~= prev);
                if started {
                    assert(out@ =~= joined(prev, paragraph_break()) + paragraph_break() + t@);
                } else {
                    assert(out@ =~= t@);
                }
            }
            started = true;
        }
        i += 1;
    }
    assert(sections@.take(sections@.len() as int) =~= sections@);
    out
}

/// The markdown documentation of each documented symbol among `symbols`.
pub fn symbol_documentation(symbols: &Vec<SymbolInformation>) -> (out: Vec<(String, String)>)
    ensures
        lists_map(out@, documented(symbols@)),
{
    let mut out: Vec<(String, String)> = Vec::new();
    let mut i: usize = 0;
    while i < symbols.len()
        invariant
            i <= symbols@.len(),
            lists_map(out@, documented(symbols@.take(i as int))),
        decreases symbols@.len() - i,
    {
        let information = &symbols[i];
        let ghost prev = documented(symbols@.take(i as int));
        proof {
            assert(symbols@.take(i + 1).drop_last() =~= symbols@.take(i as int));
        }
        let md = markdown(&information.documentation);
        if !information.symbol.as_str().is_empty() && md.len() != 0 {
            let entry = (information.symbol.clone(), string_of(&md));
            let mut k: usize = 0;
            while k < out.len() && !(out[k].0 == information.symbol)
                invariant
                    k <= out@.len(),
                    forall|j: int| 0 <= j < k ==> out@[j].0@ != information.symbol@,
                decreases out@.len() - k,
            {
                k += 1;
            }
            let ghost before = out@;
            if k < out.len() {
                out.set(k, entry);
                proof {
                    let m = prev.insert(information.symbol@, md@);
                    assert forall|a: int, b: int| 0 <= a < b < out@.len() implies out@[a].0@ != out@[b].0@ by {
                        assert(before[a].0@ != before[b].0@);
                    }
                    assert forall|key: Seq<char>| #[trigger] m.contains_key(key) implies exists|j: int|
                        0 <= j < out@.len() && out@[j].0@ == key by {
                        if key != information.symbol@ {
                            let j = choose|j: int| 0 <= j < before.len() && before[j].0@ == key;
                            assert(out@[j].0@ == key);
                        } else {
                            assert(out@[k as int].0@ == key);
                        }
                    }
                }
            } else {
                out.push(entry);
                proof {
                    let m = prev.insert(information.symbol@, md@);
                    assert forall|key: Seq<char>| #[trigger] m.contains_key(key) implies exists|j: int|
                        0 <= j < out@.len() && out@[j].0@ == key by {
                        if key != information.symbol@ {
                            let j = choose|j: int| 0 <= j < before.len() && before[j].0@ == key;
                            assert(out@[j].0@ == key);
                        } else {
                            assert(out@[k as int].0@ == key);
                        }
                    }
                }
            }
        }
        i += 1;
    }
    assert(symbols@.take(symbols@.len() as int) =~= symbols@);
    out
}

/// Whether occurrence `o` is drawn on a text of `line_count` lines: it has a symbol or a syntax
/// kind, a readable range, and both ends of the range lie on the text.
pub open spec fn is_drawn(o: Occurrence, line_count: int) -> bool {
    &&& !(o.symbol@.len() == 0 && o.syntax_kind == 0)
    &&& match range_of(o.typed_range, o.range@) {
        Some(r) => r.start_line < line_count && r.end_line < line_count,
        None => false,
    }
}

/// The drawn occurrences among `occs`, in order.
pub open spec fn drawn(occs: Seq<Occurrence>, line_count: int) -> Seq<Occurrence>
    decreases occs.len(),
{
    if occs.len() == 0 {
        Seq::empty()
    } else {
        let prev = drawn(occs.drop_last(), line_count);
        if is_drawn(occs.last(), line_count) {
            prev.push(occs.last())
        } else {
            prev
        }
    }
}

/// The distinct non-empty symbols of `occs` in the order of their first occurrence.
pub open spec fn symbol_order(occs: Seq<Occurrence>) -> Seq<Seq<char>>
    decreases occs.len(),
{
    if occs.len() == 0 {
        Seq::empty()
    } else {
        let prev = symbol_order(occs.drop_last());
        let s = occs.last().symbol@;
        if s.len() == 0 || first_index_of(prev, s) is Some {
            prev
        } else {
            prev.push(s)
        }
    }
}

/// Where a click on `symbol` in document `file` leads, if anywhere.
pub open spec fn target_of(defs: &Definitions, file: int, symbol: Seq<char>) -> Option<Definition> {
    if symbol.len() != 0 && defs.table_for(file, symbol).contains_key(symbol) {
        Some(defs.table_for(file, symbol)[symbol])
    } else {
        None
    }
}

/// The row of the drawn occurrence `o`, with symbol ids taken from `order`.
pub open spec fn row_of(
    o: Occurrence,
    order: Seq<Seq<char>>,
    lines: Seq<Seq<char>>,
    defs: &Definitions,
    file: int,
    raw_encoding: i32,
) -> OccurrenceRow {
    let r = range_of(o.typed_range, o.range@)->0;
    let encoding = encoding_of(raw_encoding);
    let id: i64 = if o.symbol@.len() == 0 {
        -1i64
    } else {
        (first_index_of(order, o.symbol@)->0) as i64
    };
    let t = target_of(defs, file, o.symbol@);
    [
        r.start_line as i64,
        browser_column(lines[r.start_line as int], r.start_character as int, encoding) as i64,
        r.end_line as i64,
        browser_column(lines[r.end_line as int], r.end_character as int, encoding) as i64,
        id,
        if t is Some { t->0.file as i64 } else { -1i64 },
        if t is Some { t->0.line as i64 } else { -1i64 },
        if t is Some { t->0.character as i64 } else { -1i64 },
        o.symbol_roles as i64,
        o.syntax_kind as i64,
    ]
}

/// The rows of the drawn occurrences `ks`, each with the symbol ids known up to it.
pub open spec fn rows_of(
    ks: Seq<Occurrence>,
    lines: Seq<Seq<char>>,
    defs: &Definitions,
    file: int,
    raw_encoding: i32,
) -> Seq<OccurrenceRow>
    decreases ks.len(),
{
    if ks.len() == 0 {
        Seq::empty()
    } else {
        rows_of(ks.drop_last(), lines, defs, file, raw_encoding).push(
            row_of(ks.last(), symbol_order(ks), lines, defs, file, raw_encoding),
        )
    }
}

/// The data of one source file as the browser loads it.
pub struct FileData {
    pub path: String,
    pub language: String,
    pub text: String,
    /// The symbols that occurrence rows name by id.
    pub symbols: Vec<String>,
    /// Markdown documentation by symbol.
    pub docs: Vec<(String, String)>,
    pub occurrences: Vec<OccurrenceRow>,
}

/// The browser data of document `file_id`, whose text is `source`.
pub fn make_file_data(
    file_id: usize,
    document: &Document,
    source: &String,
    definitions: &Definitions,
) -> (out: FileData)
    requires
        file_id < definitions.file_count(),
        source@.len() <= usize::MAX / 4,
    ensures
        out.path@ == document.relative_path@,
        out.language@ == document.language@,
        out.text@ == source@,
        string_views(out.symbols@) == symbol_order(
            drawn(document.occurrences@, lines_of(source@).len() as int),
        ),
        consolidated(
            rows_of(
                drawn(document.occurrences@, lines_of(source@).len() as int),
                lines_of(source@),
                definitions,
                file_id as int,
                document.position_encoding,
            ),
            out.occurrences@,
        ),
        lists_map(out.docs@, documented(document.symbols@)),
{
    let text = chars_of(source.as_str());
    let lines = split_lines(&text);
    let ghost lines_spec = lines_of(source@);
    proof {
        lemma_lines_shorter(source@);
        assert forall|k: int| 0 <= k < lines@.len() implies #[trigger] lines@[k]@.len() <= source@.len() by {
            assert(views(lines@)[k] == lines@[k]@);
        }
    }
    let encoding = crate::index::document_encoding(document.position_encoding);
    let ghost line_count = lines@.len() as int;
    let mut symbol_ids: CharMap<usize> = CharMap::new();
    let mut symbols: Vec<String> = Vec::new();
    let mut rows: Vec<OccurrenceRow> = Vec::new();
    let mut j: usize = 0;
    while j < document.occurrences.len()
        invariant
            views(lines@) == lines_spec,
            line_count == lines_spec.len(),
            forall|k: int| 0 <= k < lines@.len() ==> #[trigger] lines@[k]@.len() <= usize::MAX / 4,
            encoding == encoding_of(document.position_encoding),
            file_id < definitions.file_count(),
            j <= document.occurrences@.len(),
            string_views(symbols@) == symbol_order(drawn(document.occurrences@.take(j as int), line_count)),
            forall|s: Seq<char>| #[trigger] symbol_ids@.contains_key(s) == (first_index_of(
                symbol_order(drawn(document.occurrences@.take(j as int), line_count)),
                s,
            ) is Some),
            forall|s: Seq<char>| #[trigger] symbol_ids@.contains_key(s) ==> symbol_ids@[s] as int
                == first_index_of(
                symbol_order(drawn(document.occurrences@.take(j as int), line_count)),
                s,
            )->0,
            rows@ == rows_of(
                drawn(document.occurrences@.take(j as int), line_count),
                lines_spec,
                definitions,
                file_id as int,
                document.position_encoding,
            ),
        decreases document.occurrences@.len() - j,
    {
        let occurrence = &document.occurrences[j];
        let ghost prefix = document.occurrences@.take(j as int);
        let ghost ks = drawn(prefix, line_count);
        let ghost order = symbol_order(ks);
        proof {
            assert(document.occurrences@.take(j + 1).drop_last() =~= prefix);
            assert(document.occurrences@.take(j + 1).last() == *occurrence);
        }
        let symbol = chars_of(occurrence.symbol.as_str());
        if !(symbol.len() == 0 && occurrence.syntax_kind == 0) {
            if let Some(range) = occurrence_range(occurrence) {
                if range.start_line < lines.len() && range.end_line < lines.len() {
                    let ghost ks2 = ks.push(*occurrence);
                    proof {
                        assert(ks2.drop_last() =~= ks);
                        lemma_first_index_of_push(order, occurrence.symbol@, occurrence.symbol@);
                    }
                    let symbol_id: i64 = if symbol.len() == 0 {
                        -1
                    } else {
                        match symbol_ids.get(&symbol) {
                            Some(id) => *id as i64,
                            None => {
                                let id = symbols.len();
                                symbol_ids.insert_if_absent(chars_of(occurrence.symbol.as_str()), id);
                                symbols.push(occurrence.symbol.clone());
                                proof {
                                    assert(string_views(symbols@) =~= order.push(occurrence.symbol@));
                                    assert forall|s: Seq<char>| #[trigger] symbol_ids@.contains_key(s) == (
                                    first_index_of(order.push(occurrence.symbol@), s) is Some) by {
                                        lemma_first_index_of_push(order, occurrence.symbol@, s);
                                    }
                                    assert forall|s: Seq<char>| #[trigger] symbol_ids@.contains_key(s)
                                        implies symbol_ids@[s] as int == first_index_of(
                                        order.push(occurrence.symbol@),
                                        s,
                                    )->0 by {
                                        lemma_first_index_of_push(order, occurrence.symbol@, s);
                                    }
                                }
                                id as i64
                            },
                        }
                    };
                    proof {
                        assert(lines@[range.start_line as int]@ == lines_spec[range.start_line as int]);
                        assert(lines@[range.end_line as int]@ == lines_spec[range.end_line as int]);
                    }
                    let start = utf16_column(&lines[range.start_line], range.start_character, encoding);
                    let end = utf16_column(&lines[range.end_line], range.end_character, encoding);
                    let target = if symbol.len() == 0 {
                        None
                    } else {
                        definitions.get(file_id, occurrence.symbol.as_str())
                    };
                    let row: OccurrenceRow = [
                        range.start_line as i64,
                        start as i64,
                        range.end_line as i64,
                        end as i64,
                        symbol_id,
                        match target { Some(d) => d.file as i64, None => -1 },
                        match target { Some(d) => d.line as i64, None => -1 },
                        match target { Some(d) => d.character as i64, None => -1 },
                        occurrence.symbol_roles as i64,
                        occurrence.syntax_kind as i64,
                    ];
                    proof {
                        assert(row =~= row_of(*occurrence, symbol_order(ks2), lines_spec, definitions, file_id as int, document.position_encoding));
                    }
                    rows.push(row);
                }
            }
        }
        j += 1;
    }
    proof {
        assert(document.occurrences@.take(j as int) =~= document.occurrences@);
    }
    FileData {
        path: document.relative_path.clone(),
        language: document.language.clone(),
        text: string_of(&text),
        symbols,
        docs: symbol_documentation(&document.symbols),
        occurrences: consolidate_render_occurrences(rows),
    }
}

/// One file of a manifest: its id, path and language.
pub struct ManifestFile {
    pub id: usize,
    pub path: String,
    pub language: String,
}

/// What a published commit holds: its titles and names, its files, and their counts.
pub struct Manifest {
    pub title: String,
    pub repo_url: String,
    pub repo_slug: String,
    pub commit: String,
    pub files: Vec<ManifestFile>,
    pub file_count: usize,
    pub occurrence_count: usize,
}

/// The manifest of `documents`, published as `commit` of the repository at `repo_url`
/// under `repo_slug`: each document by its position as id, with its path and language, and
/// `occurrence_count` rows in all.
pub fn make_manifest(
    title: &str,
    repo_url: &str,
    repo_slug: &str,
    commit: &str,
    documents: &Vec<Document>,
    occurrence_count: usize,
) -> (out: Manifest)
    ensures
        out.title@ == title@,
        out.repo_url@ == repo_url@,
        out.repo_slug@ == repo_slug@,
        out.commit@ == commit@,
        out.file_count == documents@.len(),
        out.occurrence_count == occurrence_count,
        out.files@.len() == documents@.len(),
        forall|i: int|
            0 <= i < documents@.len() ==> {
                &&& (#[trigger] out.files@[i]).id == i
                &&& out.files@[i].path@ == documents@[i].relative_path@
                &&& out.files@[i].language@ == documents@[i].language@
            },
{
    let mut files: Vec<ManifestFile> = Vec::new();
    let mut i: usize = 0;
    while i < documents.len()
        invariant
            i <= documents@.len(),
            files@.len() == i,
            forall|j: int|
                0 <= j < i ==> {
                    &&& (#[trigger] files@[j]).id == j
                    &&& files@[j].path@ == documents@[j].relative_path@
                    &&& files@[j].language@ == documents@[j].language@
                },
        decreases documents@.len() - i,
    {
        files.push(
            ManifestFile {
                id: i,
                path: documents[i].relative_path.clone(),
                language: documents[i].language.clone(),
            },
        );
        i += 1;
    }
    Manifest {
        title: title.to_owned(),
        repo_url: repo_url.to_owned(),
        repo_slug: repo_slug.to_owned(),
        commit: commit.to_owned(),
        files,
        file_count: documents.len(),
        occurrence_count,
    }
}

/// The first and last source lines of an occurrence's SCIP range: those of its typed range when
/// it has one; else the line of a three-number range `[line, start, end]`, and the first and
/// third numbers of a four-number range `[start line, start, end line, end]`.
pub open spec fn scip_lines(o: Occurrence) -> Option<(int, int)> {
    match o.typed_range {
        Some(TypedRange::SingleLineRange(r)) => Some((r.line as int, r.line as int)),
        Some(TypedRange::MultiLineRange(r)) => Some((r.start_line as int, r.end_line as int)),
        None => if o.range@.len() == 3 {
            Some((o.range@[0] as int, o.range@[0] as int))
        } else if o.range@.len() == 4 {
            Some((o.range@[0] as int, o.range@[2] as int))
        } else {
            None
        },
    }
}

/// Every drawn occurrence is one of the occurrences, and is drawn.
proof fn lemma_drawn_members(occs: Seq<Occurrence>, line_count: int)
    ensures
        forall|k: int|
            0 <= k < drawn(occs, line_count).len() ==> is_drawn(#[trigger] drawn(occs, line_count)[k], line_count)
                && exists|j: int| 0 <= j < occs.len() && occs[j] == drawn(occs, line_count)[k],
    decreases occs.len(),
{
    if occs.len() > 0 {
        let prev = occs.drop_last();
        lemma_drawn_members(prev, line_count);
        assert forall|k: int| 0 <= k < drawn(occs, line_count).len() implies is_drawn(
            #[trigger] drawn(occs, line_count)[k],
            line_count,
        ) && exists|j: int| 0 <= j < occs.len() && occs[j] == drawn(occs, line_count)[k] by {
            if k < drawn(prev, line_count).len() {
                assert(drawn(occs, line_count)[k] == drawn(prev, line_count)[k]);
                let j = choose|j: int| 0 <= j < prev.len() && prev[j] == drawn(prev, line_count)[k];
                assert(occs[j] == prev[j]);
            } else {
                assert(occs[occs.len() - 1] == drawn(occs, line_count)[k]);
            }
        }
    }
}

/// Each row of occurrences with readable ranges starts on the first line and ends on the last
/// line of its occurrence's SCIP range.
pub proof fn law_rows_span_their_ranges(
    ks: Seq<Occurrence>,
    lines: Seq<Seq<char>>,
    defs: &Definitions,
    file: int,
    raw_encoding: i32,
)
    requires
        forall|j: int| 0 <= j < ks.len() ==> (#[trigger] range_of(ks[j].typed_range, ks[j].range@)) is Some,
    ensures
        rows_of(ks, lines, defs, file, raw_encoding).len() == ks.len(),
        forall|j: int|
            0 <= j < ks.len() ==> scip_lines(#[trigger] ks[j]) == Some(
                (
                    rows_of(ks, lines, defs, file, raw_encoding)[j][0] as int,
                    rows_of(ks, lines, defs, file, raw_encoding)[j][2] as int,
                ),
            ),
    decreases ks.len(),
{
    if ks.len() > 0 {
        let prev = ks.drop_last();
        assert forall|j: int| 0 <= j < prev.len() implies (#[trigger] range_of(
            prev[j].typed_range,
            prev[j].range@,
        )) is Some by {
            assert(prev[j] == ks[j]);
        }
        law_rows_span_their_ranges(prev, lines, defs, file, raw_encoding);
        let rows = rows_of(ks, lines, defs, file, raw_encoding);
        assert forall|j: int| 0 <= j < ks.len() implies scip_lines(#[trigger] ks[j]) == Some(
            (rows[j][0] as int, rows[j][2] as int),
        ) by {
            if j < prev.len() {
                assert(ks[j] == prev[j]);
                assert(rows[j] == rows_of(prev, lines, defs, file, raw_encoding)[j]);
            } else {
                assert(range_of(ks[j].typed_range, ks[j].range@) is Some);
            }
        }
    }
}

/// Every occurrence row of a file lies on the lines of one of its document's occurrences: its
/// start line (field 0) and end line (field 2) are the first and last lines of that
/// occurrence's SCIP range, for ranges over several lines as for ranges on one.
pub proof fn law_file_rows_span_occurrence_lines(
    occs: Seq<Occurrence>,
    lines: Seq<Seq<char>>,
    defs: &Definitions,
    file: int,
    raw_encoding: i32,
    out: Seq<OccurrenceRow>,
)
    requires
        consolidated(
            rows_of(drawn(occs, lines.len() as int), lines, defs, file, raw_encoding),
            out,
        ),
    ensures
        forall|i: int|
            0 <= i < out.len() ==> exists|j: int|
                0 <= j < occs.len() && scip_lines(#[trigger] occs[j]) == Some(
                    ((#[trigger] out[i])[0] as int, out[i][2] as int),
                ),
{
    let ks = drawn(occs, lines.len() as int);
    let rows = rows_of(ks, lines, defs, file, raw_encoding);
    lemma_drawn_members(occs, lines.len() as int);
    assert forall|j: int| 0 <= j < ks.len() implies (#[trigger] range_of(ks[j].typed_range, ks[j].range@)) is Some by {
        assert(is_drawn(ks[j], lines.len() as int));
    }
    law_rows_span_their_ranges(ks, lines, defs, file, raw_encoding);
    assert forall|i: int| 0 <= i < out.len() implies exists|j: int|
        0 <= j < occs.len() && scip_lines(#[trigger] occs[j]) == Some(
            ((#[trigger] out[i])[0] as int, out[i][2] as int),
        ) by {
        lemma_kept_for_witness(rows, out[i]);
        let k = choose|k: int| 0 <= k < rows.len() && crate::render::same_range(rows[k], out[i]);
        assert(scip_lines(ks[k]) == Some((rows[k][0] as int, rows[k][2] as int)));
        assert(is_drawn(ks[k], lines.len() as int));
        let j = choose|j: int| 0 <= j < occs.len() && occs[j] == ks[k];
        assert(scip_lines(occs[j]) == Some((out[i][0] as int, out[i][2] as int)));
    }
}

proof fn lemma_document_definitions_from(file: int, occs: Seq<Occurrence>, lines: Seq<Seq<char>>, raw_encoding: i32)
    ensures
        forall|k: int|
            0 <= k < document_definitions(file, occs, lines, raw_encoding).len() ==> exists|j: int|
                0 <= j < occs.len() && occs[j].symbol@ == (#[trigger] document_definitions(
                    file,
                    occs,
                    lines,
                    raw_encoding,
                )[k]).0 && occs[j].symbol_roles & 1 != 0 && document_definitions(
                    file,
                    occs,
                    lines,
                    raw_encoding,
                )[k].1.file == file as usize,
    decreases occs.len(),
{
    if occs.len() > 0 {
        let prev = occs.drop_last();
        let defs = document_definitions(file, occs, lines, raw_encoding);
        let before = document_definitions(file, prev, lines, raw_encoding);
        lemma_document_definitions_from(file, prev, lines, raw_encoding);
        assert forall|k: int| 0 <= k < defs.len() implies exists|j: int|
            0 <= j < occs.len() && occs[j].symbol@ == (#[trigger] defs[k]).0 && occs[j].symbol_roles
                & 1 != 0 && defs[k].1.file == file as usize by {
            if k < before.len() {
                assert(defs[k] == before[k]);
                let j = choose|j: int|
                    0 <= j < prev.len() && prev[j].symbol@ == before[k].0 && prev[j].symbol_roles & 1
                        != 0 && before[k].1.file == file as usize;
                assert(occs[j] == prev[j]);
            } else {
                let o = occs[occs.len() - 1];
                assert(definition_of(file, o, lines, raw_encoding) is Some);
                assert(o.symbol_roles & DEFINITION_ROLE != 0);
            }
        }
    }
}

proof fn lemma_index_definitions_from(docs: Seq<Document>, sources: Seq<Seq<char>>)
    ensures
        forall|k: int|
            0 <= k < index_definitions(docs, sources).len() ==> exists|f: int, j: int|
                0 <= f < docs.len() && 0 <= j < docs[f].occurrences@.len()
                    && docs[f].occurrences@[j].symbol@ == (#[trigger] index_definitions(docs, sources)[k]).0
                    && docs[f].occurrences@[j].symbol_roles & 1 != 0 && index_definitions(
                    docs,
                    sources,
                )[k].1.file == f as usize,
    decreases docs.len(),
{
    if docs.len() > 0 {
        let prev = docs.drop_last();
        let f = docs.len() - 1;
        let all = index_definitions(docs, sources);
        let before = index_definitions(prev, sources);
        let last = document_definitions(f, docs[f].occurrences@, lines_of(sources[f]), docs[f].position_encoding);
        lemma_index_definitions_from(prev, sources);
        lemma_document_definitions_from(f, docs[f].occurrences@, lines_of(sources[f]), docs[f].position_encoding);
        assert(all == before + last);
        assert forall|k: int| 0 <= k < all.len() implies exists|g: int, j: int|
            0 <= g < docs.len() && 0 <= j < docs[g].occurrences@.len() && docs[g].occurrences@[j].symbol@
                == (#[trigger] all[k]).0 && docs[g].occurrences@[j].symbol_roles & 1 != 0 && all[k].1.file
                == g as usize by {
            if k < before.len() {
                assert(all[k] == before[k]);
                let (g, j) = choose|g: int, j: int|
                    0 <= g < prev.len() && 0 <= j < prev[g].occurrences@.len()
                        && prev[g].occurrences@[j].symbol@ == before[k].0 && prev[g].occurrences@[j].symbol_roles
                        & 1 != 0 && before[k].1.file == g as usize;
                assert(docs[g] == prev[g]);
            } else {
                assert(all[k] == last[k - before.len()]);
                let j = choose|j: int|
                    0 <= j < docs[f].occurrences@.len() && docs[f].occurrences@[j].symbol@ == last[k
                        - before.len()].0 && docs[f].occurrences@[j].symbol_roles & 1 != 0 && last[k
                        - before.len()].1.file == f as usize;
            }
        }
    }
}

proof fn lemma_first_global_from(defs: Seq<(Seq<char>, Definition)>, s: Seq<char>)
    requires
        first_global(defs).contains_key(s),
    ensures
        exists|k: int| 0 <= k < defs.len() && (#[trigger] defs[k]) == (s, first_global(defs)[s]),
    decreases defs.len(),
{
    let prev = defs.drop_last();
    if first_global(prev).contains_key(s) {
        lemma_first_global_from(prev, s);
        let k = choose|k: int| 0 <= k < prev.len() && (#[trigger] prev[k]) == (s, first_global(prev)[s]);
        assert(defs[k] == prev[k]);
    } else {
        assert(defs[defs.len() - 1] == (s, first_global(defs)[s]));
    }
}

proof fn lemma_first_local_from(defs: Seq<(Seq<char>, Definition)>, file: int, s: Seq<char>)
    requires
        first_local(defs, file).contains_key(s),
    ensures
        exists|k: int| 0 <= k < defs.len() && (#[trigger] defs[k]) == (s, first_local(defs, file)[s]),
    decreases defs.len(),
{
    let prev = defs.drop_last();
    if first_local(prev, file).contains_key(s) {
        lemma_first_local_from(prev, file, s);
        let k = choose|k: int| 0 <= k < prev.len() && (#[trigger] prev[k]) == (s, first_local(prev, file)[s]);
        assert(defs[k] == prev[k]);
    } else {
        assert(defs[defs.len() - 1] == (s, first_local(defs, file)[s]));
    }
}

/// A click leads only to a definition: every definition recorded for a symbol, in the global
/// table and in each document's table of local symbols, comes from an occurrence of that symbol
/// in the document it names whose roles carry the Definition bit (`roles & 1`); a forward
/// declaration, an access or an import without that bit never becomes a target.
pub proof fn law_definitions_come_from_definition_roles(docs: Seq<Document>, sources: Seq<Seq<char>>)
    ensures
        forall|s: Seq<char>|
            #[trigger] first_global(index_definitions(docs, sources)).contains_key(s) ==> exists|f: int, j: int|
                0 <= f < docs.len() && 0 <= j < docs[f].occurrences@.len()
                    && docs[f].occurrences@[j].symbol@ == s && docs[f].occurrences@[j].symbol_roles & 1
                    != 0 && first_global(index_definitions(docs, sources))[s].file == f as usize,
        forall|file: int, s: Seq<char>|
            #[trigger] first_local(index_definitions(docs, sources), file).contains_key(s) ==> exists|
                f: int,
                j: int,
            |
                0 <= f < docs.len() && 0 <= j < docs[f].occurrences@.len()
                    && docs[f].occurrences@[j].symbol@ == s && docs[f].occurrences@[j].symbol_roles & 1
                    != 0 && first_local(index_definitions(docs, sources), file)[s].file == f as usize,
{
    let defs = index_definitions(docs, sources);
    lemma_index_definitions_from(docs, sources);
    assert forall|s: Seq<char>| #[trigger] first_global(defs).contains_key(s) implies exists|f: int, j: int|
        0 <= f < docs.len() && 0 <= j < docs[f].occurrences@.len() && docs[f].occurrences@[j].symbol@ == s
            && docs[f].occurrences@[j].symbol_roles & 1 != 0 && first_global(defs)[s].file == f as usize by {
        lemma_first_global_from(defs, s);
        let k = choose|k: int| 0 <= k < defs.len() && (#[trigger] defs[k]) == (s, first_global(defs)[s]);
        assert(defs[k].0 == s);
    }
    assert forall|file: int, s: Seq<char>| #[trigger] first_local(defs, file).contains_key(s) implies exists|
        f: int,
        j: int,
    |
        0 <= f < docs.len() && 0 <= j < docs[f].occurrences@.len() && docs[f].occurrences@[j].symbol@ == s
            && docs[f].occurrences@[j].symbol_roles & 1 != 0 && first_local(defs, file)[s].file == f as usize by {
        lemma_first_local_from(defs, file, s);
        let k = choose|k: int| 0 <= k < defs.len() && (#[trigger] defs[k]) == (s, first_local(defs, file)[s]);
        assert(defs[k].0 == s);
    }
}

} // verus!
