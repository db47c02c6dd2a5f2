//! The text of the notifications that report a difference or a baseline update.
use vstd::prelude::*;
use crate::compare::views;

verus! {

/// One line `  - <path>` for each path, in order.
pub open spec fn listed(files: Seq<Seq<char>>) -> Seq<char>
    decreases files.len(),
{
    if files.len() == 0 {
        Seq::empty()
    } else {
        listed(files.drop_last()) + "  - "@ + files.last() + "\n"@
    }
}

/// A titled list of paths; nothing at all when there are no paths.
pub open spec fn section(title: Seq<char>, files: Seq<Seq<char>>) -> Seq<char> {
    if files.len() == 0 {
        Seq::empty()
    } else {
        title + listed(files)
    }
}

/// The report of a difference for the client `client` on the host `server`.
pub open spec fn notification_body(
    client: Seq<char>,
    server: Seq<char>,
    modified: Seq<Seq<char>>,
    new_files: Seq<Seq<char>>,
    deleted: Seq<Seq<char>>,
) -> Seq<char> {
    "Warning for "@ + client + " on "@ + server + ": File integrity issues detected.\n\n"@
        + section("Modified Files:\n"@, modified) + section("\nNew Files:\n"@, new_files)
        + section("\nDeleted Files:\n"@, deleted)
}

/// The message that announces a baseline update for `client` on `server`.
pub open spec fn update_message(client: Seq<char>, server: Seq<char>) -> Seq<char> {
    "Info for "@ + client + " on "@ + server + ": Baseline has been updated successfully."@
}

fn append_section(body: &mut String, title: &str, files: &[String])
    ensures
        final(body)@ == old(body)@ + section(title@, views(files@)),
{
    if files.len() == 0 {
        assert(section(title@, views(files@)) =~= Seq::<char>::empty());
        return;
    }
    let ghost start = old(body)@;
    body.append(title);
    let mut i: usize = 0;
    while i < files.len()
        invariant
            i <= files.len(),
            files.len() > 0,
            body@ == start + title@ + listed(views(files@).take(i as int)),
        decreases files.len() - i,
    {
        body.append("  - ");
        body.append(files[i].as_str());
        body.append("\n");
        proof {
            let next = views(files@).take(i + 1);
            assert(next.drop_last() =~= views(files@).take(i as int));
            assert(next.last() == files@[i as int]@);
        }
        i = i + 1;
        assert(body@ =~= start + title@ + listed(views(files@).take(i as int)));
    }
    assert(views(files@).take(i as int) =~= views(files@));
    assert(body@ =~= start + section(title@, views(files@)));
}

/// The human-readable report of a difference: a warning line naming the
/// client and the host, then the modified, new and deleted paths, each list
/// under its own heading and left out when empty.
pub fn build_notification_body(
    client_name: &str,
    server_name: &str,
    modified: &[String],
    new_files: &[String],
    deleted: &[String],
) -> (r: String)
    ensures
        r@ == notification_body(
            client_name@,
            server_name@,
            views(modified@),
            views(new_files@),
            views(deleted@),
        ),
{
    let mut body = String::new();
    body.append("Warning for ");
    body.append(client_name);
    body.append(" on ");
    body.append(server_name);
    body.append(": File integrity issues detected.\n\n");
    append_section(&mut body, "Modified Files:\n", modified);
    append_section(&mut body, "\nNew Files:\n", new_files);
    append_section(&mut body, "\nDeleted Files:\n", deleted);
    assert(body@ =~= notification_body(
        client_name@,
        server_name@,
        views(modified@),
        views(new_files@),
        views(deleted@),
    ));
    body
}

/// The message sent after the baseline has been rewritten.
pub fn build_update_message(client_name: &str, server_name: &str) -> (r: String)
    ensures
        r@ == update_message(client_name@, server_name@),
{
    let mut msg = String::new();
    msg.append("Info for ");
    msg.append(client_name);
    msg.append(" on ");
    msg.append(server_name);
    msg.append(": Baseline has been updated successfully.");
    assert(msg@ =~= update_message(client_name@, server_name@));
    msg
}

} // verus!
