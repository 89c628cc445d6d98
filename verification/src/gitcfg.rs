//! Reading the version-control tool's answer to a configuration query: the
//! value is the first line of what the query printed. The query itself is a
//! subprocess and stays outside the library; these functions take its output
//! as text.

use vstd::prelude::*;

verus! {

/// The text before the first line feed, or all of it when there is none.
pub open spec fn first_segment(raw: Seq<char>) -> Seq<char>
    decreases raw.len(),
{
    if raw.len() == 0 {
        Seq::empty()
    } else if raw[0] == '\n' {
        Seq::empty()
    } else {
        seq![raw[0]] + first_segment(raw.drop_first())
    }
}

/// The configured value in a query's output: its first line, without the
/// carriage return that a line feed may carry.
pub open spec fn spec_config_value(raw: Seq<char>) -> Seq<char> {
    let fl = first_segment(raw);
    if fl.len() < raw.len() && fl.len() > 0 && fl.last() == '\r' {
        fl.drop_last()
    } else {
        fl
    }
}

/// The first segment is a prefix that ends at the first line feed.
proof fn lemma_first_segment(raw: Seq<char>, j: int)
    requires
        0 <= j <= raw.len(),
        forall|k: int| 0 <= k < j ==> raw[k] != '\n',
        j == raw.len() || raw[j] == '\n',
    ensures
        first_segment(raw) == raw.take(j),
    decreases j,
{
    if raw.len() == 0 {
        assert(raw.take(j) =~= Seq::<char>::empty());
    } else if j == 0 {
        assert(raw[0] == '\n');
        assert(raw.take(0) =~= Seq::<char>::empty());
    } else {
        assert(raw[0] != '\n');
        lemma_first_segment(raw.drop_first(), j - 1);
        assert(raw.drop_first().take(j - 1) =~= raw.take(j).drop_first());
        assert(seq![raw[0]] + raw.take(j).drop_first() =~= raw.take(j));
    }
}

/// The configured value in a query's output.
fn config_value(raw: &str) -> (r: String)
    ensures
        r@ == spec_config_value(raw@),
{
    let n = raw.unicode_len();
    let mut j: usize = 0;
    while j < n && raw.get_char(j) != '\n'
        invariant
            n == raw@.len(),
            j <= n,
            forall|k: int| 0 <= k < j ==> raw@[k] != '\n',
        decreases n - j,
    {
        j = j + 1;
    }
    proof {
        lemma_first_segment(raw@, j as int);
    }
    let end = if j < n && j > 0 && raw.get_char(j - 1) == '\r' {
        j - 1
    } else {
        j
    };
    proof {
        let fl = raw@.take(j as int);
        if j < n && j > 0 && raw@[j - 1] == '\r' {
            assert(fl.last() == raw@[j - 1]);
            assert(fl.drop_last() =~= raw@.take(j - 1));
        } else {
            if j > 0 {
                assert(fl.last() == raw@[j - 1]);
            }
        }
    }
    let r = raw.substring_char(0, end);
    proof {
        assert(raw@.subrange(0, end as int) =~= raw@.take(end as int));
    }
    String::from_str(r)
}

/// The display name the repository currently has, read from the output of
/// the tool's query for it.
pub fn get_git_name(raw: &str) -> (r: String)
    ensures
        r@ == spec_config_value(raw@),
{
    config_value(raw)
}

/// The email the repository currently has, read from the output of the
/// tool's query for it.
pub fn get_git_email(raw: &str) -> (r: String)
    ensures
        r@ == spec_config_value(raw@),
{
    config_value(raw)
}

} // verus!
