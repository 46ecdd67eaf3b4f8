//! Command-line command parsing, and the conversation-side work of the
//! context commands.
use vstd::prelude::*;

use crate::markers::str_eq;
use crate::model::{
    add_contexts_spec, context_text, is_created_id, remove_contexts_spec, string_views,
    ContextView, Conversation, CoreError,
};

verus! {

/// One parsed command-line invocation.
#[derive(Debug, PartialEq, Eq)]
pub enum CliCmd {
    NewConversation { conversation_id: String },
    AddWorkspaceContext { paths: Vec<String> },
    RemoveWorkspaceContext { paths: Vec<String> },
    Repl,
    Query { query: String },
    Clear,
    ListWorkspaceContext,
    History,
}

/// What executing a command reports back to the caller.
#[derive(Debug, PartialEq, Eq)]
pub enum CmdOutput {
    Done,
    Message(String),
}

/// The strings of `parts` joined with `sep` between adjacent ones.
pub open spec fn join_text(parts: Seq<Seq<char>>, sep: Seq<char>) -> Seq<char>
    decreases parts.len(),
{
    if parts.len() == 0 {
        Seq::<char>::empty()
    } else if parts.len() == 1 {
        parts[0]
    } else {
        join_text(parts.drop_last(), sep) + sep + parts.last()
    }
}

/// Joins the strings of `parts` from index `start` on, separated by `sep`.
pub fn join_from(parts: &Vec<String>, start: usize, sep: &str) -> (r: String)
    requires
        start <= parts@.len(),
    ensures
        r@ == join_text(string_views(parts@).skip(start as int), sep@),
{
    let ghost vs = string_views(parts@).skip(start as int);
    let mut r = String::new();
    let mut i: usize = start;
    proof {
        assert(vs.take(0) =~= Seq::<Seq<char>>::empty());
    }
    while i < parts.len()
        invariant
            start <= i <= parts@.len(),
            vs == string_views(parts@).skip(start as int),
            r@ == join_text(vs.take(i - start), sep@),
        decreases parts@.len() - i,
    {
        let ghost k = i - start;
        if i > start {
            r.append(sep);
        }
        r.append(parts[i].as_str());
        proof {
            assert(vs[k] == parts@[i as int]@);
            if k == 0 {
                assert(vs.take(1) =~= seq![vs[0]]);
                assert(join_text(vs.take(1), sep@) == vs[0]);
                assert(r@ =~= vs[0]);
            } else {
                assert(vs.take(k + 1).drop_last() =~= vs.take(k));
                assert(vs.take(k + 1).last() == vs[k]);
                assert(join_text(vs.take(k + 1), sep@) == join_text(vs.take(k), sep@) + sep@
                    + vs[k]);
            }
        }
        i = i + 1;
    }
    proof {
        assert(vs.take(vs.len() as int) =~= vs);
    }
    r
}

/// The arguments from index `start` on, as their own vector.
fn tail_strings(args: &Vec<String>, start: usize) -> (r: Vec<String>)
    requires
        start <= args@.len(),
    ensures
        r@ == args@.skip(start as int),
{
    let mut r: Vec<String> = Vec::new();
    let mut i: usize = start;
    while i < args.len()
        invariant
            start <= i <= args@.len(),
            r@ == args@.subrange(start as int, i as int),
        decreases args@.len() - i,
    {
        r.push(args[i].clone());
        proof {
            assert(r@ =~= args@.subrange(start as int, i as int + 1));
        }
        i = i + 1;
    }
    proof {
        assert(args@.subrange(start as int, args@.len() as int) =~= args@.skip(start as int));
    }
    r
}

impl CliCmd {
    /// Parses an invocation's arguments.  The first argument selects the
    /// command, defaulting to the interactive session; the rest are its
    /// operands.  An unrecognized command is the one parse error.
    pub fn parse_args(args: Vec<String>) -> (r: Result<CliCmd, String>)
        ensures
            args@.len() == 0 ==> r == Ok::<CliCmd, String>(CliCmd::Repl),
            args@.len() > 0 ==> ({
                let c = args@[0]@;
                let tail = string_views(args@).skip(1);
                &&& (c == "query"@ || c == "q"@) ==> (r matches Ok(CliCmd::Query { query })
                    && query@ == join_text(tail, " "@))
                &&& (c == "new"@ || c == "n"@) ==> (r matches Ok(
                    CliCmd::NewConversation { conversation_id },
                ) && is_created_id(conversation_id@, join_text(tail, "-"@)))
                &&& (c == "add"@ || c == "a"@) ==> (r matches Ok(
                    CliCmd::AddWorkspaceContext { paths },
                ) && paths@ == args@.skip(1))
                &&& (c == "remove"@ || c == "rm"@) ==> (r matches Ok(
                    CliCmd::RemoveWorkspaceContext { paths },
                ) && paths@ == args@.skip(1))
                &&& c == "clear"@ ==> r == Ok::<CliCmd, String>(CliCmd::Clear)
                &&& c == "ls"@ ==> r == Ok::<CliCmd, String>(CliCmd::ListWorkspaceContext)
                &&& c == "repl"@ ==> r == Ok::<CliCmd, String>(CliCmd::Repl)
                &&& c == "history"@ ==> r == Ok::<CliCmd, String>(CliCmd::History)
                &&& (c != "query"@ && c != "q"@ && c != "new"@ && c != "n"@ && c != "add"@ && c
                    != "a"@ && c != "remove"@ && c != "rm"@ && c != "clear"@ && c != "ls"@ && c
                    != "repl"@ && c != "history"@) ==> (r matches Err(m) && m@ == "Unknown command: "@
                    + c)
            }),
    {
        proof {
            reveal_strlit("query");
            reveal_strlit("q");
            reveal_strlit("new");
            reveal_strlit("n");
            reveal_strlit("add");
            reveal_strlit("a");
            reveal_strlit("remove");
            reveal_strlit("rm");
            reveal_strlit("clear");
            reveal_strlit("ls");
            reveal_strlit("repl");
            reveal_strlit("history");
            // lengths and first characters make the twelve keywords
            // pairwise distinct
            assert("query"@.len() == 5 && "query"@[0] == 'q');
            assert("q"@.len() == 1 && "q"@[0] == 'q');
            assert("new"@.len() == 3 && "new"@[0] == 'n');
            assert("n"@.len() == 1 && "n"@[0] == 'n');
            assert("add"@.len() == 3 && "add"@[0] == 'a');
            assert("a"@.len() == 1 && "a"@[0] == 'a');
            assert("remove"@.len() == 6 && "remove"@[0] == 'r');
            assert("rm"@.len() == 2 && "rm"@[0] == 'r');
            assert("clear"@.len() == 5 && "clear"@[0] == 'c');
            assert("ls"@.len() == 2 && "ls"@[0] == 'l');
            assert("repl"@.len() == 4 && "repl"@[0] == 'r');
            assert("history"@.len() == 7 && "history"@[0] == 'h');
        }
        if args.len() == 0 {
            return Ok(CliCmd::Repl);
        }
        if str_eq(args[0].as_str(), "query") || str_eq(args[0].as_str(), "q") {
            Ok(CliCmd::Query { query: join_from(&args, 1, " ") })
        } else if str_eq(args[0].as_str(), "new") || str_eq(args[0].as_str(), "n") {
            let conversation_id = Conversation::create_id(join_from(&args, 1, "-"));
            Ok(CliCmd::NewConversation { conversation_id })
        } else if str_eq(args[0].as_str(), "add") || str_eq(args[0].as_str(), "a") {
            Ok(CliCmd::AddWorkspaceContext { paths: tail_strings(&args, 1) })
        } else if str_eq(args[0].as_str(), "remove") || str_eq(args[0].as_str(), "rm") {
            Ok(CliCmd::RemoveWorkspaceContext { paths: tail_strings(&args, 1) })
        } else if str_eq(args[0].as_str(), "clear") {
            Ok(CliCmd::Clear)
        } else if str_eq(args[0].as_str(), "ls") {
            Ok(CliCmd::ListWorkspaceContext)
        } else if str_eq(args[0].as_str(), "repl") {
            Ok(CliCmd::Repl)
        } else if str_eq(args[0].as_str(), "history") {
            Ok(CliCmd::History)
        } else {
            let mut m = String::from_str("Unknown command: ");
            m.append(args[0].as_str());
            Err(m)
        }
    }
}

/// The conversation-side work of the add-context command: records the
/// references and reports what was added.
pub fn handle_add_workspace_contexts(conversation: &mut Conversation, paths: Vec<String>) -> (r:
    Result<CmdOutput, CoreError>)
    requires
        old(conversation).wf(),
    ensures
        final(conversation)@ == add_contexts_spec(old(conversation)@, string_views(paths@)),
        final(conversation).wf(),
        r matches Ok(CmdOutput::Message(m)) && m@ == "Added context:\n"@ + join_text(
            string_views(paths@),
            "\n"@,
        ),
{
    let mut display = String::from_str("Added context:\n");
    let joined = join_from(&paths, 0, "\n");
    proof {
        assert(string_views(paths@).skip(0) =~= string_views(paths@));
    }
    display.append(joined.as_str());
    match conversation.add_workspace_contexts(paths) {
        Ok(()) => Ok(CmdOutput::Message(display)),
        Err(e) => Err(e),
    }
}

/// The conversation-side work of the remove-context command: deletes the
/// references and reports what was removed.
pub fn handle_remove_workspace_contexts(conversation: &mut Conversation, paths: Vec<String>) -> (r:
    Result<CmdOutput, CoreError>)
    requires
        old(conversation).wf(),
    ensures
        final(conversation)@ == remove_contexts_spec(old(conversation)@, string_views(paths@)),
        final(conversation).wf(),
        r matches Ok(CmdOutput::Message(m)) && m@ == "Removed context:\n"@ + join_text(
            string_views(paths@),
            "\n"@,
        ),
{
    let mut display = String::from_str("Removed context:\n");
    let joined = join_from(&paths, 0, "\n");
    proof {
        assert(string_views(paths@).skip(0) =~= string_views(paths@));
    }
    display.append(joined.as_str());
    match conversation.remove_workspace_contexts(&paths) {
        Ok(()) => Ok(CmdOutput::Message(display)),
        Err(e) => Err(e),
    }
}

/// The literal reference texts of a context sequence.
pub open spec fn context_texts(s: Seq<ContextView>) -> Seq<Seq<char>> {
    s.map_values(|x: ContextView| context_text(x))
}

/// The display listing a conversation's whole context set, delivered
/// references first.
pub fn context_display(conversation: &Conversation) -> (r: String)
    ensures
        r@ == "Current context:\n"@ + join_text(
            context_texts(conversation@.seen + conversation@.unseen),
            "\n"@,
        ),
{
    let ghost all = conversation@.seen + conversation@.unseen;
    let mut refs: Vec<String> = Vec::new();
    let mut i: usize = 0;
    proof {
        assert(string_views(refs@) =~= context_texts(conversation@.seen.take(0)));
    }
    while i < conversation.seen_context.len()
        invariant
            0 <= i <= conversation.seen_context@.len(),
            string_views(refs@) == context_texts(conversation@.seen.take(i as int)),
        decreases conversation.seen_context@.len() - i,
    {
        let ghost prev_refs = refs@;
        refs.push(conversation.seen_context[i].text().clone());
        proof {
            assert(conversation@.seen.len() == conversation.seen_context@.len());
            assert(prev_refs.len() == i) by {
                assert(string_views(prev_refs).len() == context_texts(
                    conversation@.seen.take(i as int),
                ).len());
            }
            assert(refs@[i as int]@ == context_text(conversation@.seen[i as int]));
            assert forall|j: int| 0 <= j < i + 1 implies string_views(refs@)[j] == context_texts(
                conversation@.seen.take(i as int + 1),
            )[j] by {
                if j < i {
                    assert(string_views(prev_refs)[j] == context_texts(
                        conversation@.seen.take(i as int),
                    )[j]);
                }
            }
            assert(string_views(refs@) =~= context_texts(
                conversation@.seen.take(i as int + 1),
            ));
        }
        i = i + 1;
    }
    proof {
        assert(conversation@.seen.take(conversation@.seen.len() as int) =~= conversation@.seen);
    }
    let mut j: usize = 0;
    proof {
        assert(string_views(refs@) =~= context_texts(conversation@.seen) + context_texts(
            conversation@.unseen.take(0),
        ));
    }
    while j < conversation.unseen_context.len()
        invariant
            0 <= j <= conversation.unseen_context@.len(),
            string_views(refs@) == context_texts(conversation@.seen) + context_texts(
                conversation@.unseen.take(j as int),
            ),
        decreases conversation.unseen_context@.len() - j,
    {
        let ghost prev_refs = refs@;
        refs.push(conversation.unseen_context[j].text().clone());
        proof {
            let ghost target = context_texts(conversation@.seen) + context_texts(
                conversation@.unseen.take(j as int + 1),
            );
            assert(conversation@.unseen.len() == conversation.unseen_context@.len());
            assert(prev_refs.len() == conversation@.seen.len() + j) by {
                assert(string_views(prev_refs).len() == (context_texts(conversation@.seen)
                    + context_texts(conversation@.unseen.take(j as int))).len());
            }
            assert(refs@[prev_refs.len() as int]@ == context_text(
                conversation@.unseen[j as int],
            ));
            assert forall|m: int| 0 <= m < refs@.len() implies string_views(refs@)[m]
                == target[m] by {
                if m < prev_refs.len() {
                    assert(string_views(prev_refs)[m] == (context_texts(conversation@.seen)
                        + context_texts(conversation@.unseen.take(j as int)))[m]);
                }
            }
            assert(string_views(refs@) =~= target);
        }
        j = j + 1;
    }
    proof {
        assert(conversation@.unseen.take(conversation@.unseen.len() as int)
            =~= conversation@.unseen);
        assert(context_texts(conversation@.seen) + context_texts(conversation@.unseen)
            =~= context_texts(all));
    }
    let mut out = String::from_str("Current context:\n");
    let joined = join_from(&refs, 0, "\n");
    proof {
        assert(string_views(refs@).skip(0) =~= string_views(refs@));
    }
    out.append(joined.as_str());
    out
}

} // verus!
