//! Where each symbol is first defined: local symbols per document, the rest index-wide.
use vstd::prelude::*;

use crate::assoc::CharMap;
use crate::text::chars_of;

verus! {

/// A definition site: file id, zero-based line, UTF-16 column.
#[derive(Clone, Copy, Debug, PartialEq, Eq)]
pub struct Definition {
    pub file: usize,
    pub line: usize,
    pub character: usize,
}

/// The prefix that marks a symbol local to one document.
pub open spec fn local_prefix() -> Seq<char> {
    seq!['l', 'o', 'c', 'a', 'l', ' ']
}

/// Whether `symbol` is local to its document (SCIP writes such symbols as `local <id>`).
pub open spec fn is_local_symbol(symbol: Seq<char>) -> bool {
    symbol.len() >= 6 && symbol.take(6) == local_prefix()
}

/// Whether `symbol` starts with `local `.
pub fn is_local(symbol: &[char]) -> (res: bool)
    ensures
        res == is_local_symbol(symbol@),
{
    let res = symbol.len() >= 6 && symbol[0] == 'l' && symbol[1] == 'o' && symbol[2] == 'c'
        && symbol[3] == 'a' && symbol[4] == 'l' && symbol[5] == ' ';
    proof {
        if symbol@.len() >= 6 {
            if res {
                assert(symbol@.take(6) =~= local_prefix());
            } else {
                assert(symbol@.take(6) != local_prefix()) by {
                    let t = symbol@.take(6);
                    assert(t[0] == symbol@[0] && t[1] == symbol@[1] && t[2] == symbol@[2] && t[3]
                        == symbol@[3] && t[4] == symbol@[4] && t[5] == symbol@[5]);
                }
            }
        }
    }
    res
}

/// `m` with `k` mapped to `v` unless `k` already has a value.
pub open spec fn keep_first<V>(m: Map<Seq<char>, V>, k: Seq<char>, v: V) -> Map<Seq<char>, V> {
    if m.contains_key(k) {
        m
    } else {
        m.insert(k, v)
    }
}

/// The first definition of each symbol: global symbols in one table, local symbols in one
/// table per document.
pub struct Definitions {
    global: CharMap<Definition>,
    local: Vec<CharMap<Definition>>,
}

/// `after` is `before` with `definition` recorded for `symbol` seen in document `file`: a
/// local symbol in that document's table, any other in the global table, each time only where
/// the symbol has no definition yet.
pub open spec fn records(
    before: Definitions,
    after: Definitions,
    file: int,
    symbol: Seq<char>,
    definition: Definition,
) -> bool {
    &&& after.file_count() == before.file_count()
    &&& is_local_symbol(symbol) ==> {
        &&& after.global_view() == before.global_view()
        &&& after.local_view(file) == keep_first(before.local_view(file), symbol, definition)
        &&& forall|f: int|
            0 <= f < before.file_count() && f != file ==> #[trigger] after.local_view(f)
                == before.local_view(f)
    }
    &&& !is_local_symbol(symbol) ==> {
        &&& after.global_view() == keep_first(before.global_view(), symbol, definition)
        &&& forall|f: int|
            0 <= f < before.file_count() ==> #[trigger] after.local_view(f) == before.local_view(f)
    }
}

impl Definitions {
    /// The definitions of global symbols.
    pub closed spec fn global_view(&self) -> Map<Seq<char>, Definition> {
        self.global@
    }

    /// The number of documents that have a table of local symbols.
    pub closed spec fn file_count(&self) -> nat {
        self.local@.len()
    }

    /// The definitions of the symbols local to document `file`.
    pub closed spec fn local_view(&self, file: int) -> Map<Seq<char>, Definition> {
        self.local@[file]@
    }

    /// The table that a lookup of `symbol` from document `file` reads.
    pub open spec fn table_for(&self, file: int, symbol: Seq<char>) -> Map<Seq<char>, Definition> {
        if is_local_symbol(symbol) {
            self.local_view(file)
        } else {
            self.global_view()
        }
    }

    /// No definitions yet, for `file_count` documents.
    pub fn new(file_count: usize) -> (out: Self)
        ensures
            out.file_count() == file_count,
            out.global_view() == Map::<Seq<char>, Definition>::empty(),
            forall|f: int| 0 <= f < file_count ==> #[trigger] out.local_view(f) == Map::<
                Seq<char>,
                Definition,
            >::empty(),
    {
        let mut local: Vec<CharMap<Definition>> = Vec::new();
        let mut i: usize = 0;
        while i < file_count
            invariant
                i <= file_count,
                local@.len() == i,
                forall|f: int| 0 <= f < i ==> (#[trigger] local@[f])@ == Map::<
                    Seq<char>,
                    Definition,
                >::empty(),
            decreases file_count - i,
        {
            local.push(CharMap::new());
            i += 1;
        }
        Definitions { global: CharMap::new(), local }
    }

    /// Records `definition` for `symbol` seen in document `file`, unless the symbol already has
    /// a definition in the table that the lookup reads.
    pub fn insert(&mut self, file: usize, symbol: &str, definition: Definition)
        requires
            file < old(self).file_count(),
        ensures
            records(*old(self), *final(self), file as int, symbol@, definition),
    {
        let key = chars_of(symbol);
        if crate::definitions::is_local(&key) {
            let mut table = CharMap::new();
            std::mem::swap(&mut table, &mut self.local[file]);
            table.insert_if_absent(key, definition);
            self.local.set(file, table);
            proof {
                assert forall|f: int| 0 <= f < old(self).file_count() && f != file implies #[trigger] self.local_view(f)
                    == old(self).local_view(f) by {}
            }
        } else {
            self.global.insert_if_absent(key, definition);
        }
    }

    /// The first recorded definition of `symbol` as seen from document `file`.
    pub fn get(&self, file: usize, symbol: &str) -> (res: Option<Definition>)
        requires
            file < self.file_count(),
        ensures
            res matches Some(d) ==> self.table_for(file as int, symbol@).contains_key(symbol@)
                && d == self.table_for(file as int, symbol@)[symbol@],
            res is None ==> !self.table_for(file as int, symbol@).contains_key(symbol@),
    {
        let key = chars_of(symbol);
        let found = if is_local(&key) {
            self.local[file].get(&key)
        } else {
            self.global.get(&key)
        };
        match found {
            Some(d) => Some(*d),
            None => None,
        }
    }
}

/// The scope of a recorded definition: the first definition recorded for a symbol is the
/// one its own document sees; a local symbol stays invisible from, and leaves unchanged, every
/// other document; a global one is seen alike from every document.
pub proof fn law_definition_scope(
    before: Definitions,
    after: Definitions,
    file: int,
    symbol: Seq<char>,
    definition: Definition,
    other: int,
)
    requires
        0 <= file < before.file_count(),
        0 <= other < before.file_count(),
        records(before, after, file, symbol, definition),
    ensures
        after.table_for(file, symbol).contains_key(symbol),
        !before.table_for(file, symbol).contains_key(symbol) ==> after.table_for(file, symbol)[symbol]
            == definition,
        before.table_for(file, symbol).contains_key(symbol) ==> after.table_for(file, symbol)[symbol]
            == before.table_for(file, symbol)[symbol],
        is_local_symbol(symbol) && other != file ==> after.table_for(other, symbol) == before.table_for(
            other,
            symbol,
        ),
        !is_local_symbol(symbol) ==> after.table_for(other, symbol) == after.table_for(file, symbol),
{
}

} // verus!
