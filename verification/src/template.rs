//! File name templates: a text with one placeholder `{}` for the identifier
//! of a destination.

use crate::error::PartitionError;
use vstd::prelude::*;
use vstd::string::*;

verus! {

/// A file name template, split at its placeholder.
#[derive(Clone, Debug)]
pub struct FilenameTemplate {
    /// The text before the placeholder.
    pub prefix: String,
    /// The text after the placeholder.
    pub suffix: String,
}

/// Whether a placeholder starts at position `i` of `raw`.
pub open spec fn placeholder_at(raw: Seq<char>, i: int) -> bool {
    0 <= i && i + 1 < raw.len() && raw[i] == '{' && raw[i + 1] == '}'
}

/// Whether `raw` holds a placeholder at `i` and nowhere else.
pub open spec fn sole_placeholder(raw: Seq<char>, i: int) -> bool {
    placeholder_at(raw, i) && forall|j: int| placeholder_at(raw, j) ==> j == i
}

/// The file name that a template of these two parts gives an identifier.
pub open spec fn render(prefix: Seq<char>, suffix: Seq<char>, identifier: Seq<char>) -> Seq<char> {
    prefix + identifier + suffix
}

impl FilenameTemplate {
    /// The file name that this template gives an identifier.
    pub open spec fn name(self, identifier: Seq<char>) -> Seq<char> {
        render(self.prefix@, self.suffix@, identifier)
    }

    /// The template `{}.csv`: the identifier before a fixed extension.
    pub fn default_csv() -> (template: FilenameTemplate)
        ensures
            template.prefix@ == Seq::<char>::empty(),
            template.suffix@ == seq!['.', 'c', 's', 'v'],
    {
        proof {
            reveal_strlit(".csv");
            assert(".csv"@ =~= seq!['.', 'c', 's', 'v']);
        }
        FilenameTemplate { prefix: String::new(), suffix: String::from_str(".csv") }
    }

    /// Reads a template. The text must hold the placeholder `{}` exactly
    /// once; what stands before and after it is kept as it is.
    pub fn parse(raw: &str) -> (parsed: Result<FilenameTemplate, PartitionError>)
        ensures
            match parsed {
                Ok(template) => exists|i: int|
                    {
                        &&& #[trigger] sole_placeholder(raw@, i)
                        &&& template.prefix@ == raw@.subrange(0, i)
                        &&& template.suffix@ == raw@.subrange(i + 2, raw@.len() as int)
                    },
                Err(e) => e == PartitionError::Template && forall|i: int|
                    !#[trigger] sole_placeholder(raw@, i),
            },
    {
        let len: usize = raw.unicode_len();
        let mut found: Option<usize> = None;
        let mut i: usize = 0;
        while i < len && i + 1 < len
            invariant
                len == raw@.len(),
                i <= len,
                match found {
                    Some(at) => at + 1 < i && placeholder_at(raw@, at as int) && forall|j: int|
                        0 <= j < i && #[trigger] placeholder_at(raw@, j) ==> j == at,
                    None => forall|j: int| 0 <= j < i ==> !#[trigger] placeholder_at(raw@, j),
                },
            decreases len - i,
        {
            if raw.get_char(i) == '{' && raw.get_char(i + 1) == '}' {
                match found {
                    Some(at) => {
                        assert forall|k: int| !#[trigger] sole_placeholder(raw@, k) by {
                            if sole_placeholder(raw@, k) {
                                assert(placeholder_at(raw@, at as int));
                                assert(placeholder_at(raw@, i as int));
                            }
                        }
                        return Err(PartitionError::Template);
                    },
                    None => {
                        found = Some(i);
                        i = i + 2;
                    },
                }
            } else {
                i = i + 1;
            }
        }
        match found {
            Some(at) => {
                assert(sole_placeholder(raw@, at as int));
                let prefix = String::from_str(raw.substring_char(0, at));
                let suffix = String::from_str(raw.substring_char(at + 2, len));
                Ok(FilenameTemplate { prefix, suffix })
            },
            None => Err(PartitionError::Template),
        }
    }

    /// The file name of the destination with this identifier: the template
    /// with the identifier in place of the placeholder.
    pub fn filename(&self, unique_value: &str) -> (file_name: String)
        ensures
            file_name@ == self.name(unique_value@),
    {
        let mut file_name = self.prefix.clone();
        file_name.append(unique_value);
        file_name.append(self.suffix.as_str());
        file_name
    }
}

/// Two identifiers that a template gives the same file name are the same.
pub proof fn lemma_render_injective(
    prefix: Seq<char>,
    suffix: Seq<char>,
    a: Seq<char>,
    b: Seq<char>,
)
    requires
        render(prefix, suffix, a) == render(prefix, suffix, b),
    ensures
        a == b,
{
    let ra = render(prefix, suffix, a);
    let rb = render(prefix, suffix, b);
    assert(ra.len() == prefix.len() + a.len() + suffix.len());
    assert(rb.len() == prefix.len() + b.len() + suffix.len());
    assert(a.len() == b.len());
    assert forall|k: int| 0 <= k < a.len() implies a[k] == b[k] by {
        assert(ra[prefix.len() + k] == a[k]);
        assert(rb[prefix.len() + k] == b[k]);
    }
    assert(a =~= b);
}

} // verus!
