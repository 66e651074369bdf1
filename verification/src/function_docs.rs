//! The stable function index: records of indexed functions, keyed by hashes of their identity.
use vstd::prelude::*;

use sha2::{Digest, Sha256};

use crate::definitions::{is_local, is_local_symbol};
use crate::text::{chars_of, push_char};

verus! {

/// The version of the function index format.
pub const FUNCTION_INDEX_VERSION: u32 = 1;

/// The version of the function document schema.
pub const DOCUMENT_SCHEMA_VERSION: u32 = 2;

/// The version of the prompt that function documents are written from.
pub const PROMPT_VERSION: &'static str = "function-doc-v3";

/// The functions of one indexed commit.
pub struct FunctionIndex {
    pub version: u32,
    pub repo: String,
    pub commit: String,
    pub functions: Vec<FunctionRecord>,
}

/// One indexed function.
pub struct FunctionRecord {
    pub doc_key: String,
    pub file_id: usize,
    pub file: String,
    pub language: String,
    pub scip_symbol: String,
    pub kind: String,
    pub display_name: String,
    pub signature: String,
    pub definition_range: [usize; 4],
    pub enclosing_range: [usize; 4],
    pub existing_documentation: Vec<String>,
    pub related_symbols: Vec<String>,
    pub diagnostics: Vec<String>,
    pub source_hash: String,
}

/// The SHA-256 digest of `data`.
pub uninterp spec fn sha256(data: Seq<u8>) -> Seq<u8>;

/// Computes the SHA-256 digest of `data` with `sha2::Sha256::digest`: the 32-byte digest that
/// the name `sha256` stands for.
#[verifier::external_body]
fn sha256_digest(data: &[u8]) -> (out: Vec<u8>)
    ensures
        out@ == sha256(data@),
        out@.len() == 32,
{
    Sha256::digest(data).to_vec()
}

/// The lower-case hexadecimal digit of `n`, for `n < 16`.
pub open spec fn hex_digit(n: int) -> char {
    if n < 10 {
        (('0' as u32) + n) as char
    } else {
        (('a' as u32) + n - 10) as char
    }
}

/// `bytes` in lower-case hexadecimal, two digits per byte.
pub open spec fn hex_lower(bytes: Seq<u8>) -> Seq<char>
    decreases bytes.len(),
{
    if bytes.len() == 0 {
        Seq::empty()
    } else {
        let b = bytes.last();
        hex_lower(bytes.drop_last()) + seq![hex_digit((b / 16) as int), hex_digit((b % 16) as int)]
    }
}

/// Whether `c` is a lower-case hexadecimal digit.
pub open spec fn is_hex_lower(c: char) -> bool {
    ('0' <= c <= '9') || ('a' <= c <= 'f')
}

/// Lower-case hexadecimal takes two digits per byte.
pub proof fn lemma_hex_lower(bytes: Seq<u8>)
    ensures
        hex_lower(bytes).len() == 2 * bytes.len(),
        forall|i: int| 0 <= i < hex_lower(bytes).len() ==> is_hex_lower(#[trigger] hex_lower(bytes)[i]),
    decreases bytes.len(),
{
    if bytes.len() > 0 {
        let b = bytes.last();
        lemma_hex_lower(bytes.drop_last());
        let prev = hex_lower(bytes.drop_last());
        let pair = seq![hex_digit((b / 16) as int), hex_digit((b % 16) as int)];
        assert(is_hex_lower(pair[0]) && is_hex_lower(pair[1]));
        assert forall|i: int| 0 <= i < hex_lower(bytes).len() implies is_hex_lower(
            #[trigger] hex_lower(bytes)[i],
        ) by {
            if i < prev.len() {
                assert(hex_lower(bytes)[i] == prev[i]);
            } else {
                assert(hex_lower(bytes)[i] == pair[i - prev.len()]);
            }
        }
    }
}

/// A SHA-256 digest in hexadecimal: 64 lower-case hexadecimal digits.
pub open spec fn is_sha256_hex(s: Seq<char>) -> bool {
    s.len() == 64 && forall|i: int| 0 <= i < s.len() ==> is_hex_lower(#[trigger] s[i])
}

fn hex_digit_exec(n: u8) -> (c: char)
    requires
        n < 16,
    ensures
        c == hex_digit(n as int),
{
    let digits = ['0', '1', '2', '3', '4', '5', '6', '7', '8', '9', 'a', 'b', 'c', 'd', 'e', 'f'];
    let c = digits[n as usize];
    assert(c == hex_digit(n as int)) by {
        assert(digits@ == seq!['0', '1', '2', '3', '4', '5', '6', '7', '8', '9', 'a', 'b', 'c', 'd', 'e', 'f']);
    }
    c
}

/// `bytes` in lower-case hexadecimal.
pub fn hex_string(bytes: &[u8]) -> (out: String)
    ensures
        out@ == hex_lower(bytes@),
{
    let mut out = String::new();
    let mut i: usize = 0;
    while i < bytes.len()
        invariant
            i <= bytes@.len(),
            out@ == hex_lower(bytes@.take(i as int)),
        decreases bytes@.len() - i,
    {
        let b = bytes[i];
        push_char(&mut out, hex_digit_exec(b / 16));
        push_char(&mut out, hex_digit_exec(b % 16));
        proof {
            assert(bytes@.take(i + 1).drop_last() =~= bytes@.take(i as int));
            assert(out@ =~= hex_lower(bytes@.take(i as int)) + seq![hex_digit((b / 16) as int), hex_digit((b % 16) as int)]);
        }
        i += 1;
    }
    assert(bytes@.take(bytes@.len() as int) =~= bytes@);
    out
}

/// The UTF-8 bytes of `s`.
pub open spec fn utf8_bytes(s: Seq<char>) -> Seq<u8> {
    vstd::utf8::encode_utf8(s)
}

/// The hexadecimal SHA-256 digest of the UTF-8 text `s`.
pub open spec fn text_hash(s: Seq<char>) -> Seq<char> {
    hex_lower(sha256(utf8_bytes(s)))
}

fn sha256_hex(s: &str) -> (out: String)
    ensures
        out@ == text_hash(s@),
        is_sha256_hex(out@),
{
    let digest = sha256_digest(s.as_bytes());
    proof {
        lemma_hex_lower(digest@);
    }
    hex_string(digest.as_slice())
}

/// The text that identifies a documented symbol: repository, commit and symbol, and also the
/// file for symbols local to it, separated by NUL characters.
pub open spec fn doc_identity(repo: Seq<char>, commit: Seq<char>, file: Seq<char>, symbol: Seq<char>) -> Seq<char> {
    if is_local_symbol(symbol) {
        repo + seq!['\0'] + commit + seq!['\0'] + file + seq!['\0'] + symbol
    } else {
        repo + seq!['\0'] + commit + seq!['\0'] + symbol
    }
}

/// The document key of `symbol` in `file` of commit `commit` of `repo`.
pub fn stable_doc_key(repo: &str, commit: &str, file: &str, symbol: &str) -> (out: String)
    ensures
        out@ == text_hash(doc_identity(repo@, commit@, file@, symbol@)),
        is_sha256_hex(out@),
{
    let mut identity = String::new();
    identity.append(repo);
    push_char(&mut identity, '\0');
    identity.append(commit);
    push_char(&mut identity, '\0');
    if is_local(&chars_of(symbol)) {
        identity.append(file);
        push_char(&mut identity, '\0');
    }
    identity.append(symbol);
    assert(identity@ =~= doc_identity(repo@, commit@, file@, symbol@));
    sha256_hex(identity.as_str())
}

/// The hash of a function's source text.
pub fn source_hash(source: &str) -> (out: String)
    ensures
        out@ == text_hash(source@),
        is_sha256_hex(out@),
{
    sha256_hex(source)
}

/// The document key of a symbol that is not local does not depend on the file it is seen in.
pub proof fn law_global_doc_key_ignores_file(
    repo: Seq<char>,
    commit: Seq<char>,
    a: Seq<char>,
    b: Seq<char>,
    symbol: Seq<char>,
)
    requires
        !is_local_symbol(symbol),
    ensures
        text_hash(doc_identity(repo, commit, a, symbol)) == text_hash(
            doc_identity(repo, commit, b, symbol),
        ),
{
}

/// The identity of a local symbol names its file: seen in two different files, a local symbol
/// has two different identities, and so two document keys unless SHA-256 collides.
pub proof fn law_local_identity_names_file(
    repo: Seq<char>,
    commit: Seq<char>,
    a: Seq<char>,
    b: Seq<char>,
    symbol: Seq<char>,
)
    requires
        is_local_symbol(symbol),
        a != b,
    ensures
        doc_identity(repo, commit, a, symbol) != doc_identity(repo, commit, b, symbol),
{
    let head = repo + seq!['\0'] + commit + seq!['\0'];
    let tail = seq!['\0'] + symbol;
    let x = doc_identity(repo, commit, a, symbol);
    let y = doc_identity(repo, commit, b, symbol);
    assert(x =~= head + a + tail);
    assert(y =~= head + b + tail);
    if a.len() == b.len() {
        assert(exists|i: int| 0 <= i < a.len() && a[i] != b[i]) by {
            if !(exists|i: int| 0 <= i < a.len() && a[i] != b[i]) {
                assert(a =~= b);
            }
        }
        let i = choose|i: int| 0 <= i < a.len() && a[i] != b[i];
        assert(x[head.len() + i] == a[i]);
        assert(y[head.len() + i] == b[i]);
    } else {
        assert(x.len() != y.len());
    }
}

} // verus!
