//! `{name}` placeholders expanded from a table of variables.
use vstd::prelude::*;

use crate::text::{
    chars_equal, chars_of, find_char, first_index_of, lemma_first_index_of, push_all, push_range,
    string_of,
};

verus! {

/// Why one expansion pass over a text failed.
pub enum PassFailure {
    /// A `{` has no `}` after it.
    Unclosed,
    /// A `{}` names no variable.
    Empty,
    /// A placeholder names a variable that has no value.
    Unknown(Seq<char>),
}

/// Why rendering failed, with the text that the message names.
pub enum TemplateFailure {
    /// The text being expanded has a `{` with no `}` after it.
    Unclosed(Seq<char>),
    /// The text being expanded has an empty `{}`.
    Empty(Seq<char>),
    /// The named variable has no value.
    Unknown(Seq<char>),
    /// The input did not settle within the allowed number of passes.
    TooManyPasses(Seq<char>),
}

/// A rendering error.
#[derive(Debug)]
pub enum TemplateError {
    /// `unclosed template variable in: {text}`
    Unclosed(String),
    /// `empty template variable in: {text}`
    Empty(String),
    /// A variable with no value, named here; the message is `unknown template variable`
    /// followed by the name in braces.
    Unknown(String),
    /// `template expansion exceeded 32 passes (possible variable cycle): {input}`
    TooManyPasses(String),
}

impl View for TemplateError {
    type V = TemplateFailure;

    open spec fn view(&self) -> TemplateFailure {
        match self {
            TemplateError::Unclosed(s) => TemplateFailure::Unclosed(s@),
            TemplateError::Empty(s) => TemplateFailure::Empty(s@),
            TemplateError::Unknown(s) => TemplateFailure::Unknown(s@),
            TemplateError::TooManyPasses(s) => TemplateFailure::TooManyPasses(s@),
        }
    }
}

/// The most passes that `render` makes before it reports a cycle.
pub const MAX_PASSES: usize = 32;

/// One left-to-right pass over `s` that replaces each `{name}` by the value of `name`.
/// The values put in are not expanded again within the same pass.
pub open spec fn expand_once(vars: Map<Seq<char>, Seq<char>>, s: Seq<char>) -> Result<
    Seq<char>,
    PassFailure,
>
    decreases s.len(),
{
    match first_index_of(s, '{') {
        None => Ok(s),
        Some(start) => {
            let after = s.skip(start + 1);
            match first_index_of(after, '}') {
                None => Err(PassFailure::Unclosed),
                Some(end) => {
                    let key = after.take(end);
                    if key.len() == 0 {
                        Err(PassFailure::Empty)
                    } else if !vars.contains_key(key) {
                        Err(PassFailure::Unknown(key))
                    } else if 0 <= start < s.len() && 0 <= end < after.len() {
                        match expand_once(vars, after.skip(end + 1)) {
                            Ok(rest) => Ok(s.take(start) + vars[key] + rest),
                            Err(e) => Err(e),
                        }
                    } else {
                        Ok(s)
                    }
                },
            }
        },
    }
}

/// One pass over `s`, with a failure naming `s` where the message does.
pub open spec fn pass_outcome(vars: Map<Seq<char>, Seq<char>>, s: Seq<char>) -> Result<
    Seq<char>,
    TemplateFailure,
> {
    match expand_once(vars, s) {
        Ok(r) => Ok(r),
        Err(PassFailure::Unclosed) => Err(TemplateFailure::Unclosed(s)),
        Err(PassFailure::Empty) => Err(TemplateFailure::Empty(s)),
        Err(PassFailure::Unknown(key)) => Err(TemplateFailure::Unknown(key)),
    }
}

/// Repeats passes from `current` until a pass changes nothing, for at most `passes` passes.
pub open spec fn render_from(
    vars: Map<Seq<char>, Seq<char>>,
    input: Seq<char>,
    current: Seq<char>,
    passes: nat,
) -> Result<Seq<char>, TemplateFailure>
    decreases passes,
{
    if passes == 0 {
        Err(TemplateFailure::TooManyPasses(input))
    } else {
        match pass_outcome(vars, current) {
            Err(f) => Err(f),
            Ok(next) => if next == current {
                Ok(next)
            } else {
                render_from(vars, input, next, (passes - 1) as nat)
            },
        }
    }
}

/// What `render` gives for `input`.
pub open spec fn rendered(vars: Map<Seq<char>, Seq<char>>, input: Seq<char>) -> Result<
    Seq<char>,
    TemplateFailure,
> {
    render_from(vars, input, input, MAX_PASSES as nat)
}

/// A table of template variables.
#[derive(Debug)]
pub struct Variables {
    values: Vec<(Vec<char>, Vec<char>)>,
}

impl Variables {
    /// The variable names, in the order of their first insertion.
    pub closed spec fn keys(&self) -> Seq<Seq<char>> {
        self.values@.map_values(|e: (Vec<char>, Vec<char>)| e.0@)
    }

    closed spec fn value_at(&self, i: int) -> Seq<char> {
        self.values@[i].1@
    }

    /// An empty table.
    pub fn new() -> (out: Self)
        ensures
            out@ == Map::<Seq<char>, Seq<char>>::empty(),
    {
        let out = Variables { values: Vec::new() };
        assert(out@ =~= Map::<Seq<char>, Seq<char>>::empty());
        out
    }

    fn position(&self, key: &[char]) -> (res: Option<usize>)
        ensures
            res matches Some(i) ==> i < self.values@.len() && first_index_of(self.keys(), key@)
                == Some(i as int),
            res is None ==> first_index_of(self.keys(), key@) is None,
    {
        proof {
            lemma_first_index_of(self.keys(), key@);
        }
        let mut i: usize = 0;
        while i < self.values.len()
            invariant
                i <= self.values@.len(),
                self.keys().len() == self.values@.len(),
                forall|j: int| 0 <= j < i ==> self.keys()[j] != key@,
            decreases self.values@.len() - i,
        {
            if chars_equal(&self.values[i].0, key) {
                proof {
                    lemma_first_index_of(self.keys(), key@);
                    assert(self.keys()[i as int] == key@);
                    if let Some(k) = first_index_of(self.keys(), key@) {
                        assert(self.keys()[k] == key@);
                        assert(!(k < i));
                    }
                }
                return Some(i);
            }
            i += 1;
        }
        None
    }

    /// Sets `key` to `value`, replacing an earlier value of `key`.
    pub fn insert(&mut self, key: &str, value: &str)
        ensures
            final(self)@ == old(self)@.insert(key@, value@),
    {
        let k = chars_of(key);
        let v = chars_of(value);
        let ghost old_keys = self.keys();
        proof {
            lemma_first_index_of(old_keys, key@);
        }
        match self.position(&k) {
            Some(i) => {
                self.values.set(i, (k, v));
                proof {
                    assert(self.keys() =~= old_keys);
                    assert forall|x: Seq<char>| #[trigger] self@.contains_key(x)
                        == old(self)@.insert(key@, value@).contains_key(x) by {}
                    assert forall|x: Seq<char>| #[trigger] self@.contains_key(x) implies self@[x]
                        == old(self)@.insert(key@, value@)[x] by {
                        if x != key@ {
                            let j = first_index_of(old_keys, x)->0;
                            lemma_first_index_of(old_keys, x);
                            assert(j != i);
                        }
                    }
                    assert(self@ =~= old(self)@.insert(key@, value@));
                }
            },
            None => {
                self.values.push((k, v));
                proof {
                    let new_keys = self.keys();
                    assert(new_keys =~= old_keys.push(key@));
                    assert forall|x: Seq<char>| #[trigger] first_index_of(new_keys, x) == if x
                        == key@ {
                        Some(old_keys.len() as int)
                    } else {
                        first_index_of(old_keys, x)
                    } by {
                        lemma_first_index_of(new_keys, x);
                        lemma_first_index_of(old_keys, x);
                        if x == key@ {
                            assert(new_keys[old_keys.len() as int] == x);
                        } else {
                            match first_index_of(old_keys, x) {
                                Some(j) => {
                                    assert(new_keys[j] == x);
                                },
                                None => {},
                            }
                        }
                    }
                    assert forall|x: Seq<char>| #[trigger] self@.contains_key(x)
                        == old(self)@.insert(key@, value@).contains_key(x) by {}
                    assert forall|x: Seq<char>| #[trigger] self@.contains_key(x) implies self@[x]
                        == old(self)@.insert(key@, value@)[x] by {
                        if x == key@ {
                            assert(self.value_at(old_keys.len() as int) == value@);
                        } else {
                            let j = first_index_of(old_keys, x)->0;
                            lemma_first_index_of(old_keys, x);
                            assert(self.values@[j] == old(self).values@[j]);
                        }
                    }
                    assert(self@ =~= old(self)@.insert(key@, value@));
                }
            },
        }
    }
}

/// `r` with `p` put in front of a successful text.
pub open spec fn prefixed(p: Seq<char>, r: Result<Seq<char>, PassFailure>) -> Result<
    Seq<char>,
    PassFailure,
> {
    match r {
        Ok(x) => Ok(p + x),
        Err(e) => Err(e),
    }
}

impl Variables {
    /// One expansion pass over `input`.
    fn render_once(&self, input: &[char]) -> (res: Result<Vec<char>, TemplateError>)
        ensures
            match res {
                Ok(o) => pass_outcome(self@, input@) == Ok::<Seq<char>, TemplateFailure>(o@),
                Err(e) => pass_outcome(self@, input@) == Err::<Seq<char>, TemplateFailure>(e@),
            },
    {
        let mut out: Vec<char> = Vec::new();
        let mut i: usize = 0;
        let n = input.len();
        assert(input@.skip(0) =~= input@);
        loop
            invariant
                n == input@.len(),
                i <= input@.len(),
                expand_once(self@, input@) == prefixed(out@, expand_once(self@, input@.skip(i as int))),
            decreases input@.len() - i,
        {
            let ghost rest = input@.skip(i as int);
            match find_char(input, i, '{') {
                None => {
                    push_range(&mut out, input, i, input.len());
                    assert(input@.subrange(i as int, input@.len() as int) =~= rest);
                    return Ok(out);
                },
                Some(start) => {
                    proof {
                        lemma_first_index_of(rest, '{');
                        assert(rest.len() == input@.len() - i);
                    }
                    assert(start < input@.len());
                    let ghost after = rest.skip(start - i + 1);
                    assert(after =~= input@.skip(start + 1));
                    match find_char(input, start + 1, '}') {
                        None => {
                            return Err(TemplateError::Unclosed(string_of(input)));
                        },
                        Some(end) => {
                            proof {
                                lemma_first_index_of(after, '}');
                            }
                            let mut key: Vec<char> = Vec::new();
                            push_range(&mut key, input, start + 1, end);
                            assert(key@ =~= after.take(end - start - 1));
                            if end == start + 1 {
                                return Err(TemplateError::Empty(string_of(input)));
                            }
                            match self.position(&key) {
                                None => {
                                    return Err(TemplateError::Unknown(string_of(&key)));
                                },
                                Some(p) => {
                                    let ghost before = out@;
                                    push_range(&mut out, input, i, start);
                                    push_all(&mut out, &self.values[p].1);
                                    proof {
                                        lemma_first_index_of(self.keys(), key@);
                                        assert(self@[key@] == self.values@[p as int].1@);
                                        assert(input@.subrange(i as int, start as int) =~= rest.take(start - i));
                                        assert(after.skip(end - start) =~= input@.skip(end + 1));
                                        assert(out@ =~= before + rest.take(start - i) + self@[key@]);
                                        match expand_once(self@, input@.skip(end + 1)) {
                                            Ok(x) => {
                                                assert(before + (rest.take(start - i) + self@[key@] + x)
                                                    =~= out@ + x);
                                            },
                                            Err(_) => {},
                                        }
                                    }
                                    i = end + 1;
                                },
                            }
                        },
                    }
                },
            }
        }
    }

    /// Expands placeholders pass after pass until a pass changes nothing.
    pub fn render(&self, input: &str) -> (res: Result<String, TemplateError>)
        ensures
            match res {
                Ok(o) => rendered(self@, input@) == Ok::<Seq<char>, TemplateFailure>(o@),
                Err(e) => rendered(self@, input@) == Err::<Seq<char>, TemplateFailure>(e@),
            },
    {
        let mut current = chars_of(input);
        let mut pass: usize = 0;
        while pass < MAX_PASSES
            invariant
                pass <= MAX_PASSES,
                rendered(self@, input@) == render_from(
                    self@,
                    input@,
                    current@,
                    (MAX_PASSES - pass) as nat,
                ),
            decreases MAX_PASSES - pass,
        {
            let next = match self.render_once(&current) {
                Ok(n) => n,
                Err(e) => {
                    return Err(e);
                },
            };
            if chars_equal(&next, &current) {
                return Ok(string_of(&next));
            }
            current = next;
            pass += 1;
        }
        Err(TemplateError::TooManyPasses(input.to_owned()))
    }
}

impl Default for Variables {
    fn default() -> (out: Self)
        ensures
            out@ == Map::<Seq<char>, Seq<char>>::empty(),
    {
        Variables::new()
    }
}

impl View for Variables {
    type V = Map<Seq<char>, Seq<char>>;

    /// Each name that has a value, mapped to it.
    closed spec fn view(&self) -> Map<Seq<char>, Seq<char>> {
        Map::new(
            |k: Seq<char>| first_index_of(self.keys(), k) is Some,
            |k: Seq<char>| self.value_at(first_index_of(self.keys(), k)->0),
        )
    }
}

/// A text without `{` renders to itself, whatever the variables.
pub proof fn law_render_without_placeholders(vars: Map<Seq<char>, Seq<char>>, s: Seq<char>)
    requires
        !s.contains('{'),
    ensures
        rendered(vars, s) == Ok::<Seq<char>, TemplateFailure>(s),
{
    lemma_first_index_of(s, '{');
    if let Some(i) = first_index_of(s, '{') {
        assert(s[i] == '{');
    }
}

/// A rendered text is left unchanged by one more expansion pass.
pub proof fn law_rendered_text_is_settled(vars: Map<Seq<char>, Seq<char>>, input: Seq<char>)
    ensures
        rendered(vars, input) matches Ok(r) ==> pass_outcome(vars, r) == Ok::<
            Seq<char>,
            TemplateFailure,
        >(r),
{
    lemma_render_from_settled(vars, input, input, MAX_PASSES as nat);
}

proof fn lemma_render_from_settled(
    vars: Map<Seq<char>, Seq<char>>,
    input: Seq<char>,
    current: Seq<char>,
    passes: nat,
)
    ensures
        render_from(vars, input, current, passes) matches Ok(r) ==> pass_outcome(vars, r) == Ok::<
            Seq<char>,
            TemplateFailure,
        >(r),
    decreases passes,
{
    if passes > 0 {
        if let Ok(next) = pass_outcome(vars, current) {
            if next != current {
                lemma_render_from_settled(vars, input, next, (passes - 1) as nat);
            }
        }
    }
}

} // verus!
