//! Consolidating the documents of an index that share a relative path.
//!
//! SCIP producers can emit the same document once per translation unit. Routes are
//! path-based, so duplicate paths would make all but one copy unreachable; the copies are
//! merged into one document per path.
use vstd::prelude::*;

use crate::columns::{utf8_count, utf8_len};
use crate::file_data::string_views;
use crate::index::{Document, DocumentView, Occurrence, SymbolInformation};
use crate::order::{
    lemma_text_less_total, lemma_text_less_transitive, sorted_by_key, stable_sort, stably_sorted, text_less,
    SortKey,
};
use crate::text::{chars_equal, chars_of, decimal, decimal_string, push_all, string_of};

verus! {

impl SortKey for Document {
    open spec fn sort_key(&self) -> Seq<char> {
        self.relative_path@
    }

    fn key_chars(&self) -> (out: Vec<char>) {
        chars_of(self.relative_path.as_str())
    }
}

/// Values that carry their encoding in the index; equal encodings are the same value.
pub trait Encoded {
    /// The encoding of the value.
    spec fn encoding(&self) -> Seq<u8>;

    /// The bytes of the encoding.
    fn encoded_bytes(&self) -> (out: &[u8])
        ensures
            out@ == self.encoding(),
    ;
}

impl Encoded for Occurrence {
    open spec fn encoding(&self) -> Seq<u8> {
        self.encoded@
    }

    fn encoded_bytes(&self) -> (out: &[u8]) {
        self.encoded.as_slice()
    }
}

impl Encoded for SymbolInformation {
    open spec fn encoding(&self) -> Seq<u8> {
        self.encoded@
    }

    fn encoded_bytes(&self) -> (out: &[u8]) {
        self.encoded.as_slice()
    }
}

/// Whether one of the first `n` values of `s` has the encoding `e`.
pub open spec fn encoded_before<T: Encoded>(s: Seq<T>, n: int, e: Seq<u8>) -> bool {
    exists|j: int| 0 <= j < n && #[trigger] s[j].encoding() == e
}

/// `s` without the values whose encoding an earlier value already has.
pub open spec fn keep_first_encoded<T: Encoded>(s: Seq<T>) -> Seq<T>
    decreases s.len(),
{
    if s.len() == 0 {
        Seq::empty()
    } else {
        let prev = keep_first_encoded(s.drop_last());
        if encoded_before(s, s.len() - 1, s.last().encoding()) {
            prev
        } else {
            prev.push(s.last())
        }
    }
}

/// The views of documents.
pub open spec fn document_views(docs: Seq<Document>) -> Seq<DocumentView> {
    docs.map_values(|d: Document| d@)
}

/// `d` merged into `e`, both of one path and one position encoding: the language of `e`
/// unless it has none, the longer text in UTF-8 bytes (`e`'s on a tie), and the occurrences
/// and symbol informations of both, those of `e` first.
pub open spec fn merge_same_encoding(e: DocumentView, d: DocumentView) -> DocumentView {
    DocumentView {
        language: if e.language.len() == 0 {
            d.language
        } else {
            e.language
        },
        relative_path: e.relative_path,
        occurrences: e.occurrences + d.occurrences,
        symbols: e.symbols + d.symbols,
        text: if utf8_count(d.text) > utf8_count(e.text) {
            d.text
        } else {
            e.text
        },
        position_encoding: e.position_encoding,
    }
}

/// The document kept when `d` follows `e` with the same path: with conflicting position
/// encodings, the copy with more occurrences (`e` on a tie); else the two merged.
pub open spec fn merge_duplicate(e: DocumentView, d: DocumentView) -> DocumentView {
    if e.position_encoding != d.position_encoding {
        if d.occurrences.len() > e.occurrences.len() {
            d
        } else {
            e
        }
    } else {
        merge_same_encoding(e, d)
    }
}

/// Path-sorted documents merged path by path, each with whether copies were merged into it.
pub open spec fn merge_sorted(docs: Seq<DocumentView>) -> Seq<(DocumentView, bool)>
    decreases docs.len(),
{
    if docs.len() == 0 {
        Seq::empty()
    } else {
        let prev = merge_sorted(docs.drop_last());
        let d = docs.last();
        if prev.len() == 0 || prev.last().0.relative_path != d.relative_path {
            prev.push((d, false))
        } else {
            prev.drop_last().push((merge_duplicate(prev.last().0, d), true))
        }
    }
}

/// The warning for a path whose copies have conflicting position encodings.
pub open spec fn conflict_message(path: Seq<char>) -> Seq<char> {
    path + " was indexed with conflicting position encodings; kept the most complete copy"@
}

/// The warnings of `merge_sorted(docs)`, in order: one per copy whose position encoding
/// differs from the document it follows.
pub open spec fn conflict_warnings(docs: Seq<DocumentView>) -> Seq<Seq<char>>
    decreases docs.len(),
{
    if docs.len() == 0 {
        Seq::empty()
    } else {
        let prev = merge_sorted(docs.drop_last());
        let d = docs.last();
        let w = conflict_warnings(docs.drop_last());
        if prev.len() > 0 && prev.last().0.relative_path == d.relative_path
            && prev.last().0.position_encoding != d.position_encoding {
            w.push(conflict_message(d.relative_path))
        } else {
            w
        }
    }
}

/// The warning that `n` copies were merged away.
pub open spec fn count_message(n: nat) -> Seq<char> {
    "consolidated "@ + decimal(n) + " duplicate SCIP document entr"@ + (if n == 1 {
        "y"@
    } else {
        "ies"@
    }) + " by relative path"@
}

/// A merged document: where copies were merged into it, its occurrences and symbol
/// informations keep only the first of each encoding.
pub open spec fn finished(entry: (DocumentView, bool)) -> DocumentView {
    if entry.1 {
        DocumentView {
            occurrences: keep_first_encoded(entry.0.occurrences),
            symbols: keep_first_encoded(entry.0.symbols),
            ..entry.0
        }
    } else {
        entry.0
    }
}

/// The documents and flags, paired.
pub open spec fn paired(docs: Seq<Document>, flags: Seq<bool>) -> Seq<(DocumentView, bool)> {
    Seq::new(docs.len(), |k: int| (docs[k]@, flags[k]))
}

proof fn lemma_merge_sorted_len(docs: Seq<DocumentView>)
    ensures
        merge_sorted(docs).len() <= docs.len(),
        docs.len() > 0 ==> merge_sorted(docs).len() > 0,
    decreases docs.len(),
{
    if docs.len() > 0 {
        lemma_merge_sorted_len(docs.drop_last());
    }
}

/// The documents of a path-sorted sequence, merged, have strictly increasing paths, the
/// last of them that of the last document.
proof fn lemma_merge_sorted_increasing(docs: Seq<DocumentView>)
    requires
        forall|i: int, j: int|
            0 <= i < j < docs.len() ==> !text_less(#[trigger] docs[j].relative_path, #[trigger] docs[i].relative_path),
    ensures
        forall|i: int, j: int|
            0 <= i < j < merge_sorted(docs).len() ==> text_less(
                #[trigger] merge_sorted(docs)[i].0.relative_path,
                #[trigger] merge_sorted(docs)[j].0.relative_path,
            ),
        docs.len() > 0 ==> merge_sorted(docs).len() > 0 && merge_sorted(docs).last().0.relative_path
            == docs.last().relative_path,
    decreases docs.len(),
{
    if docs.len() > 0 {
        let prev_docs = docs.drop_last();
        assert forall|i: int, j: int| 0 <= i < j < prev_docs.len() implies !text_less(
            #[trigger] prev_docs[j].relative_path,
            #[trigger] prev_docs[i].relative_path,
        ) by {
            assert(prev_docs[i] == docs[i] && prev_docs[j] == docs[j]);
        }
        lemma_merge_sorted_increasing(prev_docs);
        lemma_merge_sorted_len(prev_docs);
        let prev = merge_sorted(prev_docs);
        let d = docs.last();
        let m = merge_sorted(docs);
        if prev.len() == 0 {
        } else if prev.last().0.relative_path != d.relative_path {
            let lp = prev.last().0.relative_path;
            assert(lp == docs[docs.len() - 2].relative_path);
            assert(!text_less(d.relative_path, lp));
            lemma_text_less_total(lp, d.relative_path);
            assert forall|i: int, j: int| 0 <= i < j < m.len() implies text_less(
                #[trigger] m[i].0.relative_path,
                #[trigger] m[j].0.relative_path,
            ) by {
                if j == m.len() - 1 {
                    if i < prev.len() - 1 {
                        assert(m[i] == prev[i]);
                        assert(text_less(prev[i].0.relative_path, lp));
                        lemma_text_less_transitive(prev[i].0.relative_path, lp, d.relative_path);
                    } else {
                        assert(m[i] == prev.last());
                    }
                } else {
                    assert(m[i] == prev[i] && m[j] == prev[j]);
                }
            }
        } else {
            let e = prev.last().0;
            assert(merge_duplicate(e, d).relative_path == e.relative_path);
            assert forall|i: int, j: int| 0 <= i < j < m.len() implies text_less(
                #[trigger] m[i].0.relative_path,
                #[trigger] m[j].0.relative_path,
            ) by {
                assert(m[i] == prev[i]);
                if j < m.len() - 1 {
                    assert(m[j] == prev[j]);
                } else {
                    assert(m[j].0.relative_path == prev[j].0.relative_path);
                }
            }
        }
    }
}

/// The number of bytes of `s` in UTF-8.
fn utf8_size(s: &str) -> (n: u128)
    ensures
        n == utf8_count(s@),
{
    let chars = chars_of(s);
    let mut n: u128 = 0;
    let mut i: usize = 0;
    while i < chars.len()
        invariant
            i <= chars@.len(),
            chars@ == s@,
            n == utf8_count(chars@.take(i as int)),
            n <= 4 * i,
        decreases chars@.len() - i,
    {
        let c = chars[i];
        let v = c as u32;
        let w: u128 = if v < 0x80 {
            1
        } else if v < 0x800 {
            2
        } else if v < 0x10000 {
            3
        } else {
            4
        };
        proof {
            assert(chars@.take(i + 1).drop_last() =~= chars@.take(i as int));
            assert(w == utf8_len(c));
        }
        n = n + w;
        i += 1;
    }
    proof {
        assert(chars@.take(chars@.len() as int) =~= chars@);
    }
    n
}

/// The first `n + 1` values have `e` when the first `n` have it or the next one has it.
proof fn lemma_encoded_before_next<T: Encoded>(s: Seq<T>, n: int, e: Seq<u8>)
    requires
        0 <= n < s.len(),
    ensures
        encoded_before(s, n + 1, e) <==> (encoded_before(s, n, e) || s[n].encoding() == e),
{
    if encoded_before(s, n + 1, e) && s[n].encoding() != e {
        let j = choose|j: int| 0 <= j < n + 1 && #[trigger] s[j].encoding() == e;
        assert(j < n);
    }
}

/// Appending a value leaves what the first values have unchanged.
proof fn lemma_encoded_before_push<T: Encoded>(s: Seq<T>, x: T, n: int, e: Seq<u8>)
    requires
        0 <= n <= s.len(),
    ensures
        encoded_before(s.push(x), n, e) == encoded_before(s, n, e),
{
    if encoded_before(s.push(x), n, e) {
        let j = choose|j: int| 0 <= j < n && #[trigger] s.push(x)[j].encoding() == e;
        assert(s.push(x)[j] == s[j]);
    }
    if encoded_before(s, n, e) {
        let j = choose|j: int| 0 <= j < n && #[trigger] s[j].encoding() == e;
        assert(s.push(x)[j] == s[j]);
    }
}

/// What the first `n` values of `s` have is what the first `n` of a longer `t` with the same
/// first values have.
proof fn lemma_encoded_before_prefix<T: Encoded>(s: Seq<T>, t: Seq<T>, n: int, e: Seq<u8>)
    requires
        0 <= n <= s.len(),
        n <= t.len(),
        forall|j: int| 0 <= j < n ==> s[j] == t[j],
    ensures
        encoded_before(s, n, e) == encoded_before(t, n, e),
{
    if encoded_before(s, n, e) {
        let j = choose|j: int| 0 <= j < n && #[trigger] s[j].encoding() == e;
        assert(t[j] == s[j]);
    }
    if encoded_before(t, n, e) {
        let j = choose|j: int| 0 <= j < n && #[trigger] t[j].encoding() == e;
        assert(t[j] == s[j]);
    }
}

/// Whether `out` has exactly the encodings of the first `n` values of `input`.
pub open spec fn same_encodings<T: Encoded>(out: Seq<T>, input: Seq<T>, n: int) -> bool {
    forall|e: Seq<u8>| #[trigger] encoded_before(out, out.len() as int, e) == encoded_before(input, n, e)
}

proof fn lemma_dedup_step<T: Encoded>(input: Seq<T>, taken: int, before: Seq<T>, seen: bool)
    requires
        0 <= taken < input.len(),
        before == keep_first_encoded(input.take(taken)),
        same_encodings(before, input, taken),
        seen == encoded_before(before, before.len() as int, input[taken].encoding()),
    ensures
        seen ==> before == keep_first_encoded(input.take(taken + 1)) && same_encodings(
            before,
            input,
            taken + 1,
        ),
        !seen ==> before.push(input[taken]) == keep_first_encoded(input.take(taken + 1))
            && same_encodings(before.push(input[taken]), input, taken + 1),
{
    let x = input[taken];
    let prefix = input.take(taken + 1);
    assert(prefix.drop_last() =~= input.take(taken));
    assert(prefix.last() == x);
    lemma_encoded_before_prefix(prefix, input, taken, x.encoding());
    assert forall|e: Seq<u8>| #[trigger] encoded_before(input, taken + 1, e) == (encoded_before(input, taken, e) || x.encoding() == e) by {
        lemma_encoded_before_next(input, taken, e);
    }
    if !seen {
        let after = before.push(x);
        assert forall|e: Seq<u8>| #[trigger] encoded_before(after, after.len() as int, e) == encoded_before(input, taken + 1, e) by {
            lemma_encoded_before_next(after, before.len() as int, e);
            lemma_encoded_before_push(before, x, before.len() as int, e);
            lemma_encoded_before_next(input, taken, e);
            assert(encoded_before(before, before.len() as int, e) == encoded_before(input, taken, e));
        }
    } else {
        assert forall|e: Seq<u8>| #[trigger] encoded_before(before, before.len() as int, e) == encoded_before(input, taken + 1, e) by {
            lemma_encoded_before_next(input, taken, e);
            assert(encoded_before(before, before.len() as int, e) == encoded_before(input, taken, e));
            assert(encoded_before(before, before.len() as int, x.encoding()) == encoded_before(input, taken, x.encoding()));
        }
    }
}

/// Keeping the first value of each encoding leaves exactly one value per encoding: no two
/// kept values share an encoding, every value's encoding is kept, and every kept encoding
/// comes from the values.
pub proof fn law_one_value_per_encoding<T: Encoded>(s: Seq<T>)
    ensures
        forall|i: int, j: int|
            0 <= i < j < keep_first_encoded(s).len() ==> (#[trigger] keep_first_encoded(s)[i]).encoding()
                != (#[trigger] keep_first_encoded(s)[j]).encoding(),
        forall|i: int|
            0 <= i < s.len() ==> encoded_before(
                keep_first_encoded(s),
                keep_first_encoded(s).len() as int,
                (#[trigger] s[i]).encoding(),
            ),
        forall|m: int|
            0 <= m < keep_first_encoded(s).len() ==> encoded_before(
                s,
                s.len() as int,
                (#[trigger] keep_first_encoded(s)[m]).encoding(),
            ),
    decreases s.len(),
{
    if s.len() > 0 {
        let t = s.drop_last();
        let x = s.last();
        let prev = keep_first_encoded(t);
        let out = keep_first_encoded(s);
        law_one_value_per_encoding(t);
        assert forall|e: Seq<u8>| #[trigger] encoded_before(t, t.len() as int, e) == encoded_before(
            s,
            s.len() - 1,
            e,
        ) by {
            lemma_encoded_before_prefix(t, s, t.len() as int, e);
        }
        assert forall|e: Seq<u8>| #[trigger] encoded_before(s, s.len() as int, e) == (encoded_before(
            s,
            s.len() - 1,
            e,
        ) || x.encoding() == e) by {
            lemma_encoded_before_next(s, s.len() - 1, e);
        }
        if encoded_before(s, s.len() - 1, x.encoding()) {
            assert(out == prev);
            assert forall|i: int| 0 <= i < s.len() implies encoded_before(
                out,
                out.len() as int,
                (#[trigger] s[i]).encoding(),
            ) by {
                if i < s.len() - 1 {
                    assert(s[i] == t[i]);
                } else {
                    assert(encoded_before(t, t.len() as int, x.encoding()));
                    let j = choose|j: int| 0 <= j < t.len() && #[trigger] t[j].encoding() == x.encoding();
                    assert(encoded_before(prev, prev.len() as int, t[j].encoding()));
                }
            }
        } else {
            assert(out == prev.push(x));
            assert forall|i: int, j: int| 0 <= i < j < out.len() implies (#[trigger] out[i]).encoding()
                != (#[trigger] out[j]).encoding() by {
                if j == out.len() - 1 {
                    assert(out[i] == prev[i]);
                    assert(out[j] == x);
                    if prev[i].encoding() == x.encoding() {
                        assert(encoded_before(t, t.len() as int, prev[i].encoding()));
                    }
                } else {
                    assert(out[i] == prev[i] && out[j] == prev[j]);
                }
            }
            assert forall|i: int| 0 <= i < s.len() implies encoded_before(
                out,
                out.len() as int,
                (#[trigger] s[i]).encoding(),
            ) by {
                lemma_encoded_before_push(prev, x, prev.len() as int, s[i].encoding());
                lemma_encoded_before_next(out, prev.len() as int, s[i].encoding());
                if i < s.len() - 1 {
                    assert(s[i] == t[i]);
                } else {
                    assert(out[prev.len() as int] == x);
                }
            }
        }
        assert forall|m: int| 0 <= m < out.len() implies encoded_before(
            s,
            s.len() as int,
            (#[trigger] out[m]).encoding(),
        ) by {
            if m < prev.len() {
                assert(out[m] == prev[m]);
                assert(encoded_before(t, t.len() as int, prev[m].encoding()));
            } else {
                assert(out[m] == x);
                assert(s[s.len() - 1] == x);
            }
        }
    }
}

/// Keeps the first value of each encoding, in order.
pub fn dedup_encoded<T: Encoded>(values: Vec<T>) -> (out: Vec<T>)
    ensures
        out@ == keep_first_encoded(values@),
{
    let ghost input = values@;
    let mut rest = values;
    let mut out: Vec<T> = Vec::new();
    let mut taken: usize = 0;
    proof {
        assert(input.take(0) =~= Seq::<T>::empty());
        assert(input.len() == rest@.len());
    }
    let total = rest.len();
    while rest.len() > 0
        invariant
            taken <= input.len(),
            input.len() == total,
            rest@ == input.skip(taken as int),
            out@ == keep_first_encoded(input.take(taken as int)),
            same_encodings(out@, input, taken as int),
        decreases rest@.len(),
    {
        let ghost old_rest = rest@;
        let x = rest.remove(0);
        assert(x == input[taken as int]) by {
            assert(old_rest[0] == input.skip(taken as int)[0]);
        }
        let bytes = x.encoded_bytes();
        let mut seen = false;
        let mut m: usize = 0;
        while m < out.len()
            invariant
                m <= out@.len(),
                bytes@ == x.encoding(),
                seen == encoded_before(out@, m as int, x.encoding()),
            decreases out@.len() - m,
        {
            proof {
                lemma_encoded_before_next(out@, m as int, x.encoding());
            }
            let other = out[m].encoded_bytes();
            if bytes_equal(other, bytes) {
                seen = true;
            }
            m += 1;
        }
        proof {
            lemma_dedup_step(input, taken as int, out@, seen);
        }
        if !seen {
            out.push(x);
        }
        proof {
            assert(rest@ =~= input.skip(taken + 1));
        }
        taken = taken + 1;
    }
    proof {
        assert(input.take(taken as int) =~= input);
    }
    out
}

/// Whether two byte strings are equal.
fn bytes_equal(a: &[u8], b: &[u8]) -> (res: bool)
    ensures
        res == (a@ == b@),
{
    if a.len() != b.len() {
        return false;
    }
    let mut i: usize = 0;
    while i < a.len()
        invariant
            i <= a@.len(),
            a@.len() == b@.len(),
            forall|j: int| 0 <= j < i ==> a@[j] == b@[j],
        decreases a@.len() - i,
    {
        if a[i] != b[i] {
            return false;
        }
        i += 1;
    }
    assert(a@ =~= b@);
    true
}

/// The warning for `path`, whose copies have conflicting position encodings.
fn conflict_warning(path: &str) -> (out: String)
    ensures
        out@ == conflict_message(path@),
{
    let mut m = chars_of(path);
    push_all(&mut m, &chars_of(" was indexed with conflicting position encodings; kept the most complete copy"));
    string_of(&m)
}

/// The warning that `n` copies were merged away.
fn count_warning(n: usize) -> (out: String)
    ensures
        out@ == count_message(n as nat),
{
    let mut m = chars_of("consolidated ");
    push_all(&mut m, &chars_of(decimal_string(n).as_str()));
    push_all(&mut m, &chars_of(" duplicate SCIP document entr"));
    if n == 1 {
        push_all(&mut m, &chars_of("y"));
    } else {
        push_all(&mut m, &chars_of("ies"));
    }
    push_all(&mut m, &chars_of(" by relative path"));
    string_of(&m)
}

/// `d` merged into `e`; both have one path.
fn merge_into(e: Document, d: Document) -> (out: Document)
    ensures
        out@ == merge_duplicate(e@, d@),
{
    if e.position_encoding != d.position_encoding {
        if d.occurrences.len() > e.occurrences.len() {
            d
        } else {
            e
        }
    } else {
        let Document { language, relative_path, occurrences, symbols, text, position_encoding } = e;
        let Document {
            language: d_language,
            relative_path: _,
            occurrences: d_occurrences,
            symbols: d_symbols,
            text: d_text,
            position_encoding: _,
        } = d;
        let language = if chars_of(language.as_str()).len() == 0 {
            d_language
        } else {
            language
        };
        let text = if utf8_size(d_text.as_str()) > utf8_size(text.as_str()) {
            d_text
        } else {
            text
        };
        let mut occurrences = occurrences;
        let mut d_occurrences = d_occurrences;
        occurrences.append(&mut d_occurrences);
        let mut symbols = symbols;
        let mut d_symbols = d_symbols;
        symbols.append(&mut d_symbols);
        Document { language, relative_path, occurrences, symbols, text, position_encoding }
    }
}

/// A merged document with its duplicate occurrences and symbol informations dropped.
fn finish(doc: Document, merged: bool) -> (out: Document)
    ensures
        out@ == finished((doc@, merged)),
{
    if merged {
        let Document { language, relative_path, occurrences, symbols, text, position_encoding } = doc;
        Document {
            language,
            relative_path,
            occurrences: dedup_encoded(occurrences),
            symbols: dedup_encoded(symbols),
            text,
            position_encoding,
        }
    } else {
        doc
    }
}

/// `out` is what consolidating `input` gives, and `after` the warnings `before` grows to:
/// the documents sorted stably by path and merged path by path, with the warnings of
/// conflicting encodings and, when copies were merged, their number.
pub open spec fn deduplicated(
    input: Seq<Document>,
    out: Seq<DocumentView>,
    before: Seq<Seq<char>>,
    after: Seq<Seq<char>>,
) -> bool {
    exists|sorted: Seq<Document>|
        #![trigger document_views(sorted)]
        {
            let merged = merge_sorted(document_views(sorted));
            let count = (input.len() - merged.len()) as nat;
            &&& stably_sorted(input, sorted)
            &&& out == merged.map_values(|e: (DocumentView, bool)| finished(e))
            &&& after == before + conflict_warnings(document_views(sorted)) + if count > 0 {
                seq![count_message(count)]
            } else {
                Seq::empty()
            }
        }
}

/// Consolidates the documents that share a relative path into one per path, in path order,
/// and appends to `warnings` one warning per copy with a conflicting position encoding and,
/// when copies were merged, one with their number.
pub fn deduplicate_documents(documents: Vec<Document>, warnings: &mut Vec<String>) -> (out: Vec<Document>)
    ensures
        deduplicated(
            documents@,
            document_views(out@),
            string_views(old(warnings)@),
            string_views(final(warnings)@),
        ),
        forall|i: int, j: int|
            0 <= i < j < out@.len() ==> text_less(
                #[trigger] out@[i].relative_path@,
                #[trigger] out@[j].relative_path@,
            ),
{
    let sorted = stable_sort(documents);
    let ghost sorted_seq = sorted@;
    let ghost views = document_views(sorted@);
    let total = sorted.len();
    let ghost start = string_views(warnings@);
    let mut rest = sorted;
    let mut unique: Vec<Document> = Vec::new();
    let mut flags: Vec<bool> = Vec::new();
    let mut duplicates: usize = 0;
    let ghost mut taken: int = 0;
    proof {
        assert(views.take(0) =~= Seq::<DocumentView>::empty());
        assert(paired(unique@, flags@) =~= Seq::<(DocumentView, bool)>::empty());
    }
    while rest.len() > 0
        invariant
            0 <= taken <= views.len(),
            views == document_views(sorted_seq),
            views.len() == total,
            document_views(rest@) == views.skip(taken),
            unique@.len() == flags@.len(),
            paired(unique@, flags@) == merge_sorted(views.take(taken)),
            duplicates + unique@.len() == taken,
            string_views(warnings@) == start + conflict_warnings(views.take(taken)),
        decreases rest@.len(),
    {
        let ghost old_rest = rest@;
        let ghost before = paired(unique@, flags@);
        let ghost before_warnings = string_views(warnings@);
        proof {
            assert(document_views(old_rest).len() == old_rest.len());
            assert(views.skip(taken).len() == old_rest.len());
            assert(taken < views.len());
        }
        let d = rest.remove(0);
        proof {
            assert(d@ == views[taken]) by {
                assert(d == old_rest[0]);
                assert(document_views(old_rest)[0] == views.skip(taken)[0]);
            }
            let prefix = views.take(taken + 1);
            assert(prefix.drop_last() =~= views.take(taken));
            assert(prefix.last() == d@);
            assert forall|j: int| 0 <= j < rest@.len() implies #[trigger] document_views(rest@)[j] == views.skip(taken + 1)[j] by {
                assert(rest@[j] == old_rest[j + 1]);
                assert(document_views(old_rest)[j + 1] == views.skip(taken)[j + 1]);
            }
            assert(document_views(rest@) =~= views.skip(taken + 1));
        }
        let n = unique.len();
        if n == 0 || !chars_equal(&chars_of(unique[n - 1].relative_path.as_str()), &chars_of(d.relative_path.as_str())) {
            unique.push(d);
            flags.push(false);
            proof {
                assert(paired(unique@, flags@) =~= before.push((d@, false)));
            }
        } else {
            let e = unique.pop().unwrap();
            flags.pop();
            proof {
                assert(before.last().0 == e@);
                assert(paired(unique@, flags@) =~= before.drop_last());
            }
            if e.position_encoding != d.position_encoding {
                warnings.push(conflict_warning(d.relative_path.as_str()));
                proof {
                    assert(string_views(warnings@) =~= before_warnings.push(conflict_message(d@.relative_path)));
                }
            }
            let merged = merge_into(e, d);
            unique.push(merged);
            flags.push(true);
            duplicates = duplicates + 1;
            proof {
                assert(paired(unique@, flags@) =~= before.drop_last().push((merge_duplicate(before.last().0, views[taken]), true)));
            }
        }
        proof {
            taken = taken + 1;
        }
    }
    proof {
        assert(views.take(taken) =~= views);
    }
    let ghost merged_all = paired(unique@, flags@);
    proof {
        assert(merged_all == merge_sorted(views));
        lemma_merge_sorted_len(views);
    }
    let mut out: Vec<Document> = Vec::new();
    let mut k: usize = 0;
    let mut rest_unique = unique;
    while rest_unique.len() > 0
        invariant
            k <= merged_all.len(),
            merged_all.len() <= total,
            rest_unique@.len() + k == merged_all.len(),
            forall|j: int| 0 <= j < rest_unique@.len() ==> (#[trigger] rest_unique@[j])@ == merged_all[k + j].0,
            flags@.len() == merged_all.len(),
            forall|j: int| 0 <= j < flags@.len() ==> #[trigger] flags@[j] == merged_all[j].1,
            document_views(out@) == merged_all.take(k as int).map_values(|e: (DocumentView, bool)| finished(e)),
        decreases rest_unique@.len(),
    {
        let ghost old_rest = rest_unique@;
        let doc = rest_unique.remove(0);
        proof {
            assert(doc@ == merged_all[k as int].0) by {
                assert(old_rest[0]@ == merged_all[k + 0].0);
            }
            assert forall|j: int| 0 <= j < rest_unique@.len() implies (#[trigger] rest_unique@[j])@ == merged_all[k + 1 + j].0 by {
                assert(rest_unique@[j] == old_rest[j + 1]);
            }
        }
        let finished_doc = finish(doc, flags[k]);
        let ghost before_out = out@;
        out.push(finished_doc);
        proof {
            assert(merged_all.take(k + 1).map_values(|e: (DocumentView, bool)| finished(e)) =~= merged_all.take(
                k as int,
            ).map_values(|e: (DocumentView, bool)| finished(e)).push(finished(merged_all[k as int])));
            assert(document_views(out@) =~= document_views(before_out).push(finished_doc@));
        }
        k = k + 1;
    }
    proof {
        assert(merged_all.take(k as int) =~= merged_all);
    }
    let ghost before_count = string_views(warnings@);
    if duplicates > 0 {
        warnings.push(count_warning(duplicates));
        proof {
            assert(string_views(warnings@) =~= before_count.push(count_message(duplicates as nat)));
        }
    }
    proof {
        assert(duplicates == documents@.len() - merged_all.len()) by {
            assert(sorted_seq.len() == documents@.len());
        }
        let witness = sorted_seq;
        assert(sorted_by_key(sorted_seq));
        assert forall|i: int, j: int| 0 <= i < j < views.len() implies !text_less(
            #[trigger] views[j].relative_path,
            #[trigger] views[i].relative_path,
        ) by {
            assert(views[i].relative_path == sorted_seq[i].sort_key());
            assert(views[j].relative_path == sorted_seq[j].sort_key());
        }
        lemma_merge_sorted_increasing(views);
        assert forall|i: int, j: int| 0 <= i < j < out@.len() implies text_less(
            #[trigger] out@[i].relative_path@,
            #[trigger] out@[j].relative_path@,
        ) by {
            assert(document_views(out@)[i] == out@[i]@);
            assert(document_views(out@)[j] == out@[j]@);
            assert(finished(merged_all[i]).relative_path == merged_all[i].0.relative_path);
            assert(finished(merged_all[j]).relative_path == merged_all[j].0.relative_path);
        }
        assert(document_views(out@) == merge_sorted(document_views(witness)).map_values(|e: (DocumentView, bool)| finished(e)));
        let count = (documents@.len() - merge_sorted(document_views(witness)).len()) as nat;
        assert(count == duplicates);
        if count > 0 {
            assert(string_views(warnings@) == start + conflict_warnings(document_views(witness)) + seq![
                count_message(count),
            ]);
        } else {
            assert(string_views(warnings@) =~= start + conflict_warnings(document_views(witness))
                + Seq::<Seq<char>>::empty());
        }
        assert(stably_sorted(documents@, witness));
        assert(deduplicated(documents@, document_views(out@), start, string_views(warnings@)));
    }
    out
}

} // verus!
