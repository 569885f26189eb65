//! The text in which the three metrics are handed on: one line for each, a
//! key, an equals sign and the value.

use vstd::prelude::*;
use vstd::string::*;

verus! {

/// One line of the report: the key, an equals sign, the value and a line
/// feed.
pub open spec fn report_line(key: Seq<char>, value: Seq<char>) -> Seq<char> {
    key + seq!['='] + value + seq!['\n']
}

/// The report: the average clustering coefficient, the average degree and
/// the average distance, in this order.
pub open spec fn report_text(
    clustering: Seq<char>,
    degree: Seq<char>,
    distance: Seq<char>,
) -> Seq<char> {
    report_line("AVERAGE_CLUSTERING"@, clustering) + report_line("AVERAGE_DEGREE"@, degree)
        + report_line("AVERAGE_DISTANCE"@, distance)
}

/// Appends one line of the report to `text`.
fn push_line(text: &mut String, key: &str, value: &str)
    ensures
        final(text)@ == old(text)@ + report_line(key@, value@),
{
    let ghost before = text@;
    text.append(key);
    text.append("=");
    text.append(value);
    text.append("\n");
    proof {
        reveal_strlit("=");
        reveal_strlit("\n");
        assert("="@ =~= seq!['=']);
        assert("\n"@ =~= seq!['\n']);
        assert(text@ =~= before + report_line(key@, value@));
    }
}

/// The report of the three metrics, each value written as the caller wants
/// it shown.
pub fn report(clustering: &str, degree: &str, distance: &str) -> (text: String)
    ensures
        text@ == report_text(clustering@, degree@, distance@),
{
    let mut text = String::new();
    push_line(&mut text, "AVERAGE_CLUSTERING", clustering);
    push_line(&mut text, "AVERAGE_DEGREE", degree);
    push_line(&mut text, "AVERAGE_DISTANCE", distance);
    proof {
        assert(text@ =~= report_text(clustering@, degree@, distance@));
    }
    text
}

} // verus!
