use vstd::prelude::*;

verus! {

/// The text of one failure record: a blank line, the time, then the failed
/// operation and the path it concerned, then the error's detail.
pub open spec fn record_text(
    timestamp: Seq<char>,
    context: Seq<char>,
    path: Seq<char>,
    detail: Seq<char>,
) -> Seq<char> {
    seq!['\n'] + timestamp + seq!['\n'] + context + seq![' '] + path + seq!['\n'] + detail + seq![
        '\n',
    ]
}

/// Formats one failure record for the log.
pub fn failure_record(timestamp: &str, context: &str, path: &str, detail: &str) -> (r: String)
    ensures
        r@ == record_text(timestamp@, context@, path@, detail@),
{
    proof {
        reveal_strlit("\n");
        reveal_strlit(" ");
    }
    let mut r = String::new();
    r.append("\n");
    r.append(timestamp);
    r.append("\n");
    r.append(context);
    r.append(" ");
    r.append(path);
    r.append("\n");
    r.append(detail);
    r.append("\n");
    assert(r@ =~= record_text(timestamp@, context@, path@, detail@));
    r
}

} // verus!
