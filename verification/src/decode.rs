//! Decoding a SCIP index from its protobuf bytes into the documents of the library.
//!
//! Each message is decoded on its own: a message hands out its plain fields and, for each
//! message it holds, that message's encoding, which is decoded in turn. The encoding of an
//! occurrence or of a symbol information is also what tells two copies of it apart.
use vstd::prelude::*;

use protobuf::Message;
use scip::types::occurrence::Typed_range;

use crate::index::{
    document_values, Document, DocumentValues, MultiLineRange, Occurrence, OccurrenceView,
    SingleLineRange, SymbolInformation, SymbolView, TypedRange,
};

verus! {

/// An error of the protobuf decoder.
#[verifier::external_type_specification]
#[verifier::external_body]
pub struct ExProtobufError(protobuf::Error);

/// What an index message holds: the encodings of its documents and the project root of its
/// metadata, if it has metadata; `None` when the bytes are no index message.
pub uninterp spec fn index_message(bytes: Seq<u8>) -> Option<(Seq<Seq<u8>>, Option<Seq<char>>)>;

/// Decodes an index message with `scip::types::Index::parse_from_bytes` and hands out the
/// encoding of each document (`Message::write_to_bytes`) and the metadata's `project_root`;
/// what that is for given bytes is the name `index_message`.
#[verifier::external_body]
fn index_fields(bytes: &[u8]) -> (res: Result<(Vec<Vec<u8>>, Option<String>), protobuf::Error>)
    ensures
        match res {
            Ok((documents, root)) => index_message(bytes@) == Some(
                (documents@.map_values(|d: Vec<u8>| d@), opt_chars(root)),
            ),
            Err(_) => index_message(bytes@) is None,
        },
{
    let index = scip::types::Index::parse_from_bytes(bytes)?;
    let documents = index.documents.iter().map(|d| d.write_to_bytes()).collect::<Result<Vec<_>, _>>()?;
    Ok((documents, index.metadata.as_ref().map(|m| m.project_root.clone())))
}

/// What a document message holds: language, relative path, the encodings of its occurrences
/// and of its symbol informations, text, and the raw position encoding.
pub uninterp spec fn document_message(bytes: Seq<u8>) -> Option<
    (Seq<char>, Seq<char>, Seq<Seq<u8>>, Seq<Seq<u8>>, Seq<char>, i32),
>;

/// Decodes a document message with `scip::types::Document::parse_from_bytes` and hands out
/// its fields, each occurrence and symbol information as its encoding
/// (`Message::write_to_bytes`); what that is for given bytes is the name `document_message`.
#[verifier::external_body]
fn document_fields(bytes: &[u8]) -> (res: Result<
    (String, String, Vec<Vec<u8>>, Vec<Vec<u8>>, String, i32),
    protobuf::Error,
>)
    ensures
        match res {
            Ok((language, path, occurrences, symbols, text, encoding)) => document_message(bytes@)
                == Some(
                (
                    language@,
                    path@,
                    occurrences@.map_values(|o: Vec<u8>| o@),
                    symbols@.map_values(|s: Vec<u8>| s@),
                    text@,
                    encoding,
                ),
            ),
            Err(_) => document_message(bytes@) is None,
        },
{
    let d = scip::types::Document::parse_from_bytes(bytes)?;
    let occurrences = d.occurrences.iter().map(|o| o.write_to_bytes()).collect::<Result<Vec<_>, _>>()?;
    let symbols = d.symbols.iter().map(|s| s.write_to_bytes()).collect::<Result<Vec<_>, _>>()?;
    Ok((d.language, d.relative_path, occurrences, symbols, d.text, d.position_encoding.value()))
}

/// What an occurrence message holds: its untyped range, its typed range, symbol, roles and
/// raw syntax kind.
pub uninterp spec fn occurrence_message(bytes: Seq<u8>) -> Option<
    (Seq<i32>, Option<TypedRange>, Seq<char>, i32, i32),
>;

/// Decodes an occurrence message with `scip::types::Occurrence::parse_from_bytes` and hands
/// out its fields, the typed range as the library's; what that is for given bytes is the
/// name `occurrence_message`.
#[verifier::external_body]
fn occurrence_fields(bytes: &[u8]) -> (res: Result<(Vec<i32>, Option<TypedRange>, String, i32, i32), protobuf::Error>)
    ensures
        match res {
            Ok((range, typed, symbol, roles, kind)) => occurrence_message(bytes@) == Some(
                (range@, typed, symbol@, roles, kind),
            ),
            Err(_) => occurrence_message(bytes@) is None,
        },
{
    let o = scip::types::Occurrence::parse_from_bytes(bytes)?;
    let typed = match o.typed_range {
        Some(Typed_range::SingleLineRange(r)) => Some(TypedRange::SingleLineRange(SingleLineRange { line: r.line, start_character: r.start_character, end_character: r.end_character })),
        Some(Typed_range::MultiLineRange(r)) => Some(TypedRange::MultiLineRange(MultiLineRange { start_line: r.start_line, start_character: r.start_character, end_line: r.end_line, end_character: r.end_character })),
        _ => None,
    };
    Ok((o.range, typed, o.symbol, o.symbol_roles, o.syntax_kind.value()))
}

/// What a symbol information message holds: its symbol and documentation sections.
pub uninterp spec fn symbol_message(bytes: Seq<u8>) -> Option<(Seq<char>, Seq<Seq<char>>)>;

/// Decodes a symbol information message with
/// `scip::types::SymbolInformation::parse_from_bytes` and hands out its symbol and
/// documentation; what that is for given bytes is the name `symbol_message`.
#[verifier::external_body]
fn symbol_fields(bytes: &[u8]) -> (res: Result<(String, Vec<String>), protobuf::Error>)
    ensures
        match res {
            Ok((symbol, documentation)) => symbol_message(bytes@) == Some(
                (symbol@, documentation@.map_values(|s: String| s@)),
            ),
            Err(_) => symbol_message(bytes@) is None,
        },
{
    let s = scip::types::SymbolInformation::parse_from_bytes(bytes)?;
    Ok((s.symbol, s.documentation))
}

/// The view of an optional string.
pub open spec fn opt_chars(o: Option<String>) -> Option<Seq<char>> {
    match o {
        Some(s) => Some(s@),
        None => None,
    }
}

/// The occurrence that an occurrence message decodes to; its encoding is `bytes`.
pub open spec fn occurrence_decoded(bytes: Seq<u8>) -> Option<OccurrenceView> {
    match occurrence_message(bytes) {
        Some((range, typed_range, symbol, symbol_roles, syntax_kind)) => Some(
            OccurrenceView { range, typed_range, symbol, symbol_roles, syntax_kind, encoded: bytes },
        ),
        None => None,
    }
}

/// The symbol information that a symbol information message decodes to; its encoding is
/// `bytes`.
pub open spec fn symbol_decoded(bytes: Seq<u8>) -> Option<SymbolView> {
    match symbol_message(bytes) {
        Some((symbol, documentation)) => Some(SymbolView { symbol, documentation, encoded: bytes }),
        None => None,
    }
}

/// The occurrences that the messages `encs` decode to, in order; none when one does not
/// decode.
pub open spec fn occurrences_decoded(encs: Seq<Seq<u8>>) -> Option<Seq<OccurrenceView>>
    decreases encs.len(),
{
    if encs.len() == 0 {
        Some(Seq::empty())
    } else {
        match (occurrences_decoded(encs.drop_last()), occurrence_decoded(encs.last())) {
            (Some(prev), Some(o)) => Some(prev.push(o)),
            _ => None,
        }
    }
}

/// The symbol informations that the messages `encs` decode to, in order; none when one does
/// not decode.
pub open spec fn symbols_decoded(encs: Seq<Seq<u8>>) -> Option<Seq<SymbolView>>
    decreases encs.len(),
{
    if encs.len() == 0 {
        Some(Seq::empty())
    } else {
        match (symbols_decoded(encs.drop_last()), symbol_decoded(encs.last())) {
            (Some(prev), Some(s)) => Some(prev.push(s)),
            _ => None,
        }
    }
}

/// The document that a document message decodes to.
pub open spec fn document_decoded(bytes: Seq<u8>) -> Option<DocumentValues> {
    match document_message(bytes) {
        Some((language, relative_path, occ, sym, text, position_encoding)) => match (
            occurrences_decoded(occ),
            symbols_decoded(sym),
        ) {
            (Some(occurrences), Some(symbols)) => Some(
                DocumentValues { language, relative_path, occurrences, symbols, text, position_encoding },
            ),
            _ => None,
        },
        None => None,
    }
}

/// The documents that the messages `encs` decode to, in order; none when one does not
/// decode.
pub open spec fn documents_decoded(encs: Seq<Seq<u8>>) -> Option<Seq<DocumentValues>>
    decreases encs.len(),
{
    if encs.len() == 0 {
        Some(Seq::empty())
    } else {
        match (documents_decoded(encs.drop_last()), document_decoded(encs.last())) {
            (Some(prev), Some(d)) => Some(prev.push(d)),
            _ => None,
        }
    }
}

/// A decoded index as plain values.
pub struct IndexView {
    pub documents: Seq<DocumentValues>,
    pub project_root: Option<Seq<char>>,
}

/// What the bytes of an index decode to; none when they, or a message they hold, are not a
/// valid message.
pub open spec fn index_decoded(bytes: Seq<u8>) -> Option<IndexView> {
    match index_message(bytes) {
        Some((docs, project_root)) => match documents_decoded(docs) {
            Some(documents) => Some(IndexView { documents, project_root }),
            None => None,
        },
        None => None,
    }
}

/// The documents of an index and the project root URL of its metadata, if it has one.
pub struct DecodedIndex {
    pub documents: Vec<Document>,
    pub project_root: Option<String>,
}

impl View for DecodedIndex {
    type V = IndexView;

    open spec fn view(&self) -> IndexView {
        IndexView {
            documents: self.documents@.map_values(|d: Document| document_values(d)),
            project_root: opt_chars(self.project_root),
        }
    }
}

/// The views of byte strings.
pub open spec fn byte_views(v: Seq<Vec<u8>>) -> Seq<Seq<u8>> {
    v.map_values(|b: Vec<u8>| b@)
}

fn copy_bytes(b: &Vec<u8>) -> (out: Vec<u8>)
    ensures
        out@ == b@,
{
    let out = b.clone();
    assert(out@ =~= b@);
    out
}

fn decode_occurrences(encs: &Vec<Vec<u8>>) -> (res: Result<Vec<Occurrence>, protobuf::Error>)
    ensures
        match res {
            Ok(v) => occurrences_decoded(byte_views(encs@)) == Some(v@.map_values(|o: Occurrence| o@)),
            Err(_) => occurrences_decoded(byte_views(encs@)) is None,
        },
{
    let mut out: Vec<Occurrence> = Vec::new();
    let mut i: usize = 0;
    while i < encs.len()
        invariant
            i <= encs@.len(),
            out@.len() == i,
            occurrences_decoded(byte_views(encs@).take(i as int)) == Some(
                out@.map_values(|o: Occurrence| o@),
            ),
        decreases encs@.len() - i,
    {
        let ghost before = out@;
        let ghost prefix = byte_views(encs@).take(i + 1);
        proof {
            assert(prefix.drop_last() =~= byte_views(encs@).take(i as int));
            assert(prefix.last() == encs@[i as int]@);
        }
        match occurrence_fields(encs[i].as_slice()) {
            Ok((range, typed_range, symbol, symbol_roles, syntax_kind)) => {
                out.push(
                    Occurrence {
                        range,
                        typed_range,
                        symbol,
                        symbol_roles,
                        syntax_kind,
                        encoded: copy_bytes(&encs[i]),
                    },
                );
                assert(out@.map_values(|o: Occurrence| o@) =~= before.map_values(|o: Occurrence| o@).push(
                    out@[i as int]@,
                ));
            },
            Err(e) => {
                proof {
                    lemma_occurrences_decoded_none(byte_views(encs@), i + 1);
                }
                return Err(e);
            },
        }
        i += 1;
    }
    assert(byte_views(encs@).take(encs@.len() as int) =~= byte_views(encs@));
    Ok(out)
}

proof fn lemma_occurrences_decoded_none(encs: Seq<Seq<u8>>, n: int)
    requires
        0 <= n <= encs.len(),
        occurrences_decoded(encs.take(n)) is None,
    ensures
        occurrences_decoded(encs) is None,
    decreases encs.len() - n,
{
    if n < encs.len() {
        assert(encs.take(n + 1).drop_last() =~= encs.take(n));
        lemma_occurrences_decoded_none(encs, n + 1);
    } else {
        assert(encs.take(n) =~= encs);
    }
}

proof fn lemma_symbols_decoded_none(encs: Seq<Seq<u8>>, n: int)
    requires
        0 <= n <= encs.len(),
        symbols_decoded(encs.take(n)) is None,
    ensures
        symbols_decoded(encs) is None,
    decreases encs.len() - n,
{
    if n < encs.len() {
        assert(encs.take(n + 1).drop_last() =~= encs.take(n));
        lemma_symbols_decoded_none(encs, n + 1);
    } else {
        assert(encs.take(n) =~= encs);
    }
}

proof fn lemma_documents_decoded_none(encs: Seq<Seq<u8>>, n: int)
    requires
        0 <= n <= encs.len(),
        documents_decoded(encs.take(n)) is None,
    ensures
        documents_decoded(encs) is None,
    decreases encs.len() - n,
{
    if n < encs.len() {
        assert(encs.take(n + 1).drop_last() =~= encs.take(n));
        lemma_documents_decoded_none(encs, n + 1);
    } else {
        assert(encs.take(n) =~= encs);
    }
}

fn decode_symbols(encs: &Vec<Vec<u8>>) -> (res: Result<Vec<SymbolInformation>, protobuf::Error>)
    ensures
        match res {
            Ok(v) => symbols_decoded(byte_views(encs@)) == Some(v@.map_values(|s: SymbolInformation| s@)),
            Err(_) => symbols_decoded(byte_views(encs@)) is None,
        },
{
    let mut out: Vec<SymbolInformation> = Vec::new();
    let mut i: usize = 0;
    while i < encs.len()
        invariant
            i <= encs@.len(),
            out@.len() == i,
            symbols_decoded(byte_views(encs@).take(i as int)) == Some(
                out@.map_values(|s: SymbolInformation| s@),
            ),
        decreases encs@.len() - i,
    {
        let ghost before = out@;
        let ghost prefix = byte_views(encs@).take(i + 1);
        proof {
            assert(prefix.drop_last() =~= byte_views(encs@).take(i as int));
            assert(prefix.last() == encs@[i as int]@);
        }
        match symbol_fields(encs[i].as_slice()) {
            Ok((symbol, documentation)) => {
                out.push(SymbolInformation { symbol, documentation, encoded: copy_bytes(&encs[i]) });
                assert(out@.map_values(|s: SymbolInformation| s@) =~= before.map_values(
                    |s: SymbolInformation| s@,
                ).push(out@[i as int]@));
            },
            Err(e) => {
                proof {
                    lemma_symbols_decoded_none(byte_views(encs@), i + 1);
                }
                return Err(e);
            },
        }
        i += 1;
    }
    assert(byte_views(encs@).take(encs@.len() as int) =~= byte_views(encs@));
    Ok(out)
}

fn decode_document(bytes: &[u8]) -> (res: Result<Document, protobuf::Error>)
    ensures
        match res {
            Ok(d) => document_decoded(bytes@) == Some(document_values(d)),
            Err(_) => document_decoded(bytes@) is None,
        },
{
    let (language, relative_path, occ, sym, text, position_encoding) = document_fields(bytes)?;
    let occurrences = decode_occurrences(&occ)?;
    let symbols = decode_symbols(&sym)?;
    assert(byte_views(occ@) =~= occ@.map_values(|o: Vec<u8>| o@));
    assert(byte_views(sym@) =~= sym@.map_values(|s: Vec<u8>| s@));
    Ok(Document { language, relative_path, occurrences, symbols, text, position_encoding })
}

/// Decodes the bytes of a SCIP index: every document, with its occurrences and symbol
/// informations, and the project root of the metadata.
pub fn decode_index(bytes: &[u8]) -> (res: Result<DecodedIndex, protobuf::Error>)
    ensures
        match res {
            Ok(index) => index_decoded(bytes@) == Some(index@),
            Err(_) => index_decoded(bytes@) is None,
        },
{
    let (encs, project_root) = index_fields(bytes)?;
    assert(byte_views(encs@) =~= encs@.map_values(|d: Vec<u8>| d@));
    let mut documents: Vec<Document> = Vec::new();
    let mut i: usize = 0;
    while i < encs.len()
        invariant
            i <= encs@.len(),
            documents@.len() == i,
            index_message(bytes@) == Some((byte_views(encs@), opt_chars(project_root))),
            documents_decoded(byte_views(encs@).take(i as int)) == Some(
                documents@.map_values(|d: Document| document_values(d)),
            ),
        decreases encs@.len() - i,
    {
        let ghost before = documents@;
        let ghost prefix = byte_views(encs@).take(i + 1);
        proof {
            assert(prefix.drop_last() =~= byte_views(encs@).take(i as int));
            assert(prefix.last() == encs@[i as int]@);
        }
        match decode_document(encs[i].as_slice()) {
            Ok(d) => {
                documents.push(d);
                assert(documents@.map_values(|d: Document| document_values(d)) =~= before.map_values(
                    |d: Document| document_values(d),
                ).push(document_values(documents@[i as int])));
            },
            Err(e) => {
                proof {
                    lemma_documents_decoded_none(byte_views(encs@), i + 1);
                }
                return Err(e);
            },
        }
        i += 1;
    }
    assert(byte_views(encs@).take(encs@.len() as int) =~= byte_views(encs@));
    assert(byte_views(encs@) =~= encs@.map_values(|d: Vec<u8>| d@));
    Ok(DecodedIndex { documents, project_root })
}

} // verus!
