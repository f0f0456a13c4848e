//! Identifiers for destinations: one per key, safe in a file name, and never
//! issued twice.

use crate::error::PartitionError;
use crate::sanitize::{base_of, compile, non_word_pattern, pattern_of, sanitize};
use crate::template::FilenameTemplate;
use regex::Regex;
use vstd::hash_set::StringHashSet;
use vstd::prelude::*;
use vstd::string::*;

verus! {

/// What a generator remembers, as mathematics.
pub struct GeneratorState {
    /// The number that the next collision is resolved with first.
    pub counter: nat,
    /// Every identifier issued so far.
    pub used: Set<Seq<char>>,
}

/// The decimal digit of a number below ten.
pub open spec fn digit(d: nat) -> char {
    if d == 0 {
        '0'
    } else if d == 1 {
        '1'
    } else if d == 2 {
        '2'
    } else if d == 3 {
        '3'
    } else if d == 4 {
        '4'
    } else if d == 5 {
        '5'
    } else if d == 6 {
        '6'
    } else if d == 7 {
        '7'
    } else if d == 8 {
        '8'
    } else {
        '9'
    }
}

/// A number in decimal, without leading zeros.
pub open spec fn decimal(n: nat) -> Seq<char>
    decreases n,
{
    if n < 10 {
        seq![digit(n)]
    } else {
        decimal(n / 10).push(digit(n % 10))
    }
}

/// The identifier that stands for `base` after a collision: the base, an
/// underscore and the counter.
pub open spec fn candidate(base: Seq<char>, n: nat) -> Seq<char> {
    base + seq!['_'] + decimal(n)
}

/// The first counter from `from` on whose candidate is not in use, if there
/// is one below the largest counter.
pub open spec fn first_free(used: Set<Seq<char>>, base: Seq<char>, from: nat) -> Option<nat>
    decreases usize::MAX - from,
{
    if from >= usize::MAX {
        None
    } else if !used.contains(candidate(base, from)) {
        Some(from)
    } else {
        first_free(used, base, from + 1)
    }
}

/// The identifier issued for a base, and the state after it. A base that
/// is free is issued as it is. Otherwise the first free candidate from the
/// counter on is issued and the counter moves behind it. Where no candidate
/// is free nothing is issued and nothing changes.
pub open spec fn issue(s: GeneratorState, base: Seq<char>) -> (Option<Seq<char>>, GeneratorState) {
    if !s.used.contains(base) {
        (Some(base), GeneratorState { counter: s.counter, used: s.used.insert(base) })
    } else {
        match first_free(s.used, base, s.counter) {
            Some(n) => (
                Some(candidate(base, n)),
                GeneratorState { counter: n + 1, used: s.used.insert(candidate(base, n)) },
            ),
            None => (None, s),
        }
    }
}

/// The identifiers issued for a sequence of keys, one after the other, up to
/// the first key for which none is left.
pub open spec fn issue_all(s: GeneratorState, keys: Seq<Seq<u8>>) -> Seq<Seq<char>>
    decreases keys.len(),
{
    if keys.len() == 0 {
        Seq::empty()
    } else {
        match issue(s, base_of(keys[0])) {
            (Some(id), next) => seq![id] + issue_all(next, keys.drop_first()),
            (None, _) => Seq::empty(),
        }
    }
}

/// What `first_free` finds is free, lies between the start and the largest
/// counter, and has only candidates in use before it.
pub proof fn lemma_first_free(used: Set<Seq<char>>, base: Seq<char>, from: nat)
    ensures
        match first_free(used, base, from) {
            Some(n) => {
                &&& from <= n < usize::MAX
                &&& !used.contains(candidate(base, n))
                &&& forall|m: nat| from <= m < n ==> used.contains(#[trigger] candidate(base, m))
            },
            None => forall|m: nat|
                from <= m < usize::MAX ==> used.contains(#[trigger] candidate(base, m)),
        },
    decreases usize::MAX - from,
{
    if from < usize::MAX && used.contains(candidate(base, from)) {
        lemma_first_free(used, base, from + 1);
    }
}

/// An identifier is issued only if it was not in use, and is in use after;
/// nothing else enters or leaves the identifiers in use.
pub proof fn lemma_issue_fresh(s: GeneratorState, base: Seq<char>)
    ensures
        match issue(s, base) {
            (Some(id), next) => !s.used.contains(id) && next.used == s.used.insert(id)
                && next.counter >= s.counter,
            (None, next) => next == s,
        },
{
    lemma_first_free(s.used, base, s.counter);
}

/// No identifier issued for a sequence of keys was in use before.
pub proof fn lemma_issue_all_fresh(s: GeneratorState, keys: Seq<Seq<u8>>, i: int)
    requires
        0 <= i < issue_all(s, keys).len(),
    ensures
        !s.used.contains(issue_all(s, keys)[i]),
    decreases keys.len(),
{
    let (first, next) = issue(s, base_of(keys[0]));
    lemma_issue_fresh(s, base_of(keys[0]));
    if i > 0 {
        lemma_issue_all_fresh(next, keys.drop_first(), i - 1);
    }
}

/// A generator never issues the same identifier twice: whatever the keys,
/// equal ones and ones with the same base among them, the identifiers issued
/// for them differ from each other.
pub proof fn lemma_identifiers_unique(s: GeneratorState, keys: Seq<Seq<u8>>, i: int, j: int)
    requires
        0 <= i < j < issue_all(s, keys).len(),
    ensures
        issue_all(s, keys)[i] != issue_all(s, keys)[j],
    decreases keys.len(),
{
    let (first, next) = issue(s, base_of(keys[0]));
    lemma_issue_fresh(s, base_of(keys[0]));
    if i == 0 {
        lemma_issue_all_fresh(next, keys.drop_first(), j - 1);
    } else {
        lemma_identifiers_unique(next, keys.drop_first(), i - 1, j - 1);
    }
}

/// The text of one decimal digit.
fn digit_str(d: usize) -> (text: &'static str)
    requires
        d < 10,
    ensures
        text@ == seq![digit(d as nat)],
{
    proof {
        reveal_strlit("0");
        reveal_strlit("1");
        reveal_strlit("2");
        reveal_strlit("3");
        reveal_strlit("4");
        reveal_strlit("5");
        reveal_strlit("6");
        reveal_strlit("7");
        reveal_strlit("8");
        reveal_strlit("9");
    }
    let text = if d == 0 {
        "0"
    } else if d == 1 {
        "1"
    } else if d == 2 {
        "2"
    } else if d == 3 {
        "3"
    } else if d == 4 {
        "4"
    } else if d == 5 {
        "5"
    } else if d == 6 {
        "6"
    } else if d == 7 {
        "7"
    } else if d == 8 {
        "8"
    } else {
        "9"
    };
    assert(text@ =~= seq![digit(d as nat)]);
    text
}

/// Writes a number in decimal.
pub fn decimal_string(n: usize) -> (text: String)
    ensures
        text@ == decimal(n as nat),
    decreases n,
{
    if n < 10 {
        String::from_str(digit_str(n))
    } else {
        let mut text = decimal_string(n / 10);
        text.append(digit_str(n % 10));
        text
    }
}

/// Generates the identifiers of destinations from their keys.
pub struct WriterGenerator {
    template: FilenameTemplate,
    counter: usize,
    used: StringHashSet,
    non_word_char: Regex,
}

impl View for WriterGenerator {
    type V = GeneratorState;

    closed spec fn view(&self) -> GeneratorState {
        GeneratorState { counter: self.counter as nat, used: self.used@ }
    }
}

impl WriterGenerator {
    /// Whether the generator strips what it is meant to strip.
    pub closed spec fn wf(&self) -> bool {
        pattern_of(self.non_word_char) == non_word_pattern()
    }

    /// The template that file names are made with.
    pub closed spec fn template(&self) -> FilenameTemplate {
        self.template
    }

    /// The state of a generator that has issued nothing and resolves
    /// collisions from `counter` on.
    pub open spec fn starting(counter: nat) -> GeneratorState {
        GeneratorState { counter, used: Set::empty() }
    }

    /// The state of a generator that has issued nothing.
    pub open spec fn initial() -> GeneratorState {
        Self::starting(1)
    }

    /// A generator that has issued nothing and resolves collisions from
    /// `counter` on, around what the regex engine made of the pattern of the
    /// characters to strip.
    pub fn with_pattern(
        template: FilenameTemplate,
        counter: usize,
        compiled: Result<Regex, regex::Error>,
    ) -> (made: Result<WriterGenerator, PartitionError>)
        requires
            compiled matches Ok(re) ==> pattern_of(re) == non_word_pattern(),
        ensures
            match made {
                Ok(gen) => compiled is Ok && gen.wf() && gen@ == Self::starting(counter as nat)
                    && gen.template() == template,
                Err(e) => compiled is Err && e == PartitionError::Pattern,
            },
    {
        match compiled {
            Ok(non_word_char) => Ok(
                WriterGenerator { template, counter, used: StringHashSet::new(), non_word_char },
            ),
            Err(_) => Err(PartitionError::Pattern),
        }
    }

    /// A generator that has issued nothing. It fails only where the regex
    /// engine does not take the pattern of the characters to strip.
    pub fn new(template: FilenameTemplate) -> (made: Result<WriterGenerator, PartitionError>)
        ensures
            match made {
                Ok(gen) => gen.wf() && gen@ == Self::initial() && gen.template() == template,
                Err(e) => e == PartitionError::Pattern,
            },
    {
        proof {
            reveal_strlit("\\W");
            assert("\\W"@ =~= non_word_pattern());
        }
        Self::with_pattern(template, 1, compile("\\W"))
    }

    /// Issues the identifier for a base: the base itself if it is free, else
    /// the first free candidate from the counter on.
    pub fn allocate(&mut self, base: String) -> (issued: Result<String, PartitionError>)
        requires
            old(self).wf(),
        ensures
            final(self).wf(),
            final(self).template() == old(self).template(),
            final(self)@ == issue(old(self)@, base@).1,
            match issued {
                Ok(id) => issue(old(self)@, base@).0 == Some(id@),
                Err(e) => e == PartitionError::IdentifiersExhausted && issue(old(self)@, base@).0
                    is None,
            },
    {
        if !self.used.contains(base.as_str()) {
            self.used.insert(base.clone());
            return Ok(base);
        }
        let mut n: usize = self.counter;
        while n < usize::MAX
            invariant
                self.counter <= n,
                first_free(self.used@, base@, self.counter as nat) == first_free(
                    self.used@,
                    base@,
                    n as nat,
                ),
                *self == *old(self),
                old(self).wf(),
                old(self)@.used.contains(base@),
            decreases usize::MAX - n,
        {
            let mut text = base.clone();
            text.append("_");
            text.append(decimal_string(n).as_str());
            proof {
                reveal_strlit("_");
                assert(text@ =~= candidate(base@, n as nat));
            }
            if !self.used.contains(text.as_str()) {
                self.used.insert(text.clone());
                self.counter = n + 1;
                assert(first_free(old(self)@.used, base@, n as nat) == Some(n as nat));
                return Ok(text);
            }
            n = n + 1;
        }
        Err(PartitionError::IdentifiersExhausted)
    }

    /// The identifier and the file name for the new destination of a key.
    pub fn writer(&mut self, key: &[u8]) -> (named: Result<(String, String), PartitionError>)
        requires
            old(self).wf(),
        ensures
            final(self).wf(),
            final(self).template() == old(self).template(),
            final(self)@ == issue(old(self)@, base_of(key@)).1,
            match named {
                Ok((id, file_name)) => issue(old(self)@, base_of(key@)).0 == Some(id@)
                    && file_name@ == old(self).template().name(id@),
                Err(e) => e == PartitionError::IdentifiersExhausted && issue(
                    old(self)@,
                    base_of(key@),
                ).0 is None,
            },
    {
        match self.unique_value(key) {
            Ok(unique_value) => {
                let file_name = self.template.filename(unique_value.as_str());
                Ok((unique_value, file_name))
            },
            Err(e) => Err(e),
        }
    }

    /// The file name of a destination that has its identifier. Nothing is
    /// issued: a destination keeps its identifier for good.
    pub fn re_open(&self, identifier: &str) -> (file_name: String)
        ensures
            file_name@ == self.template().name(identifier@),
    {
        self.template.filename(identifier)
    }

    /// The identifier for a key: what is left of the key after sanitizing,
    /// made different from every identifier issued before.
    pub fn unique_value(&mut self, key: &[u8]) -> (issued: Result<String, PartitionError>)
        requires
            old(self).wf(),
        ensures
            final(self).wf(),
            final(self).template() == old(self).template(),
            final(self)@ == issue(old(self)@, base_of(key@)).1,
            match issued {
                Ok(id) => issue(old(self)@, base_of(key@)).0 == Some(id@),
                Err(e) => e == PartitionError::IdentifiersExhausted && issue(
                    old(self)@,
                    base_of(key@),
                ).0 is None,
            },
    {
        let base = sanitize(&self.non_word_char, key);
        self.allocate(base)
    }
}

} // verus!
