//! The script that removes what was marked.
use vstd::prelude::*;

use crate::db::StoredFileEntry;
use crate::text::to_chars;

verus! {

/// The file that the script is written to.
pub const SCRIPT_NAME: &'static str = "cleanup.sh";

/// A text between single quotes, as a shell takes it: a quote inside ends the quoting, stands
/// escaped and starts it again.
pub open spec fn escaped(s: Seq<char>) -> Seq<char>
    decreases s.len(),
{
    if s.len() == 0 {
        Seq::empty()
    } else if s[0] == '\'' {
        seq!['\'', '\\', '\'', '\''] + escaped(s.skip(1))
    } else {
        seq![s[0]] + escaped(s.skip(1))
    }
}

/// A text as one word of a shell command.
pub open spec fn shell_word(s: Seq<char>) -> Seq<char> {
    seq!['\''] + escaped(s) + seq!['\'']
}

/// What a shell makes of the word `text`: inside single quotes every character stands for itself,
/// outside a backslash makes the next one stand for itself. `None` where a quote is left open, and
/// where anything else stands outside of quotes, which a shell may take for something else.
pub open spec fn shell_reads(text: Seq<char>, quoted: bool) -> Option<Seq<char>>
    decreases text.len(),
{
    if text.len() == 0 {
        if quoted {
            None
        } else {
            Some(Seq::empty())
        }
    } else if text[0] == '\'' {
        shell_reads(text.skip(1), !quoted)
    } else if !quoted && text[0] == '\\' {
        if text.len() == 1 {
            None
        } else {
            match shell_reads(text.skip(2), false) {
                Some(rest) => Some(seq![text[1]] + rest),
                None => None,
            }
        }
    } else if quoted {
        match shell_reads(text.skip(1), true) {
            Some(rest) => Some(seq![text[0]] + rest),
            None => None,
        }
    } else {
        None
    }
}

proof fn lemma_reads_escaped(s: Seq<char>)
    ensures
        shell_reads(escaped(s) + seq!['\''], true) == Some(s),
    decreases s.len(),
{
    let end = seq!['\''];
    let text = escaped(s) + end;
    if s.len() == 0 {
        assert(text =~= end);
        assert(text.skip(1) =~= Seq::empty());
        assert(shell_reads(text.skip(1), false) == Some(Seq::<char>::empty()));
        assert(s =~= Seq::empty());
    } else {
        let rest = escaped(s.skip(1)) + end;
        lemma_reads_escaped(s.skip(1));
        assert(s =~= seq![s[0]] + s.skip(1));
        if s[0] == '\'' {
            // the closing quote
            assert(text.skip(1) =~= seq!['\\', '\'', '\''] + rest);
            // the escaped quote
            let open = text.skip(1);
            assert(open.skip(2) =~= seq!['\''] + rest);
            // the opening quote
            let again = open.skip(2);
            assert(again.skip(1) =~= rest);
            assert(shell_reads(again, false) == shell_reads(rest, true));
            assert(shell_reads(open, false) == Some(seq!['\''] + s.skip(1)));
            assert(shell_reads(text, true) == shell_reads(open, false));
        } else {
            assert(text.skip(1) =~= rest);
        }
    }
}

/// A shell reads the word for a path as that path, whatever characters it holds.
pub proof fn law_shell_reads_path(path: Seq<char>)
    ensures
        shell_reads(shell_word(path), false) == Some(path),
{
    lemma_reads_escaped(path);
    assert(shell_word(path).skip(1) =~= escaped(path) + seq!['\'']);
}

/// The command that removes an entry, on a line of its own.
pub open spec fn removal(path: Seq<char>, is_dir: bool) -> Seq<char> {
    (if is_dir {
        "rm -rf "@
    } else {
        "rm "@
    }) + shell_word(path) + "\n"@
}

/// What the script starts with.
pub open spec fn script_head() -> Seq<char> {
    "#!/bin/bash\n\n# Rootkitty cleanup script\n# Review carefully before running!\n\n"@
}

/// The script that removes the first `n` entries.
pub open spec fn script_for(items: Seq<StoredFileEntry>, n: nat) -> Seq<char>
    decreases n,
{
    if n == 0 {
        script_head()
    } else {
        script_for(items, (n - 1) as nat) + removal(items[n - 1].path@, items[n - 1].is_dir)
    }
}

proof fn lemma_script_of_part(items: Seq<StoredFileEntry>, e: StoredFileEntry, n: nat)
    requires
        n <= items.len(),
    ensures
        script_for(items.push(e), n) == script_for(items, n),
    decreases n,
{
    if n > 0 {
        lemma_script_of_part(items, e, (n - 1) as nat);
        assert(items.push(e)[n - 1] == items[n - 1]);
    }
}

/// A script that removes one entry more, whatever entry that is, has one line more, at its end: the
/// command that removes a directory with all it holds, or the one that removes a file, and behind
/// it a word that a shell reads as the entry's path.
pub proof fn law_one_command_for_each(items: Seq<StoredFileEntry>, e: StoredFileEntry) -> (word: Seq<
    char,
>)
    ensures
        script_for(items.push(e), items.len() + 1) == script_for(items, items.len()) + (if e.is_dir {
            seq!['r', 'm', ' ', '-', 'r', 'f', ' ']
        } else {
            seq!['r', 'm', ' ']
        }) + word + seq!['\n'],
        shell_reads(word, false) == Some(e.path@),
{
    reveal_strlit("rm -rf ");
    reveal_strlit("rm ");
    reveal_strlit("\n");
    let word = shell_word(e.path@);
    lemma_script_of_part(items, e, items.len());
    law_shell_reads_path(e.path@);
    assert(items.push(e)[items.len() as int] == e);
    let start = script_for(items, items.len());
    let command = if e.is_dir {
        seq!['r', 'm', ' ', '-', 'r', 'f', ' ']
    } else {
        seq!['r', 'm', ' ']
    };
    assert(removal(e.path@, e.is_dir) =~= command + word + seq!['\n']);
    assert(script_for(items.push(e), items.len() + 1) =~= start + command + word + seq!['\n']);
    word
}

/// A script without entries removes nothing: it names the shell that runs it, and every line after
/// that is empty or a comment.
pub proof fn law_empty_script_removes_nothing(items: Seq<StoredFileEntry>)
    requires
        items.len() == 0,
    ensures
        script_for(items, items.len())
            == "#!/bin/bash\n\n# Rootkitty cleanup script\n# Review carefully before running!\n\n"@,
{
}

fn push_word(script: &mut String, path: &str)
    ensures
        final(script)@ == old(script)@ + shell_word(path@),
{
    let ghost start = script@;
    let chars = to_chars(path);
    script.push('\'');
    let mut i: usize = 0;
    assert(chars@.skip(0) =~= chars@);
    assert(script@ + escaped(chars@) =~= start + seq!['\''] + escaped(chars@));
    while i < chars.len()
        invariant
            i <= chars@.len(),
            chars@ == path@,
            script@ + escaped(chars@.skip(i as int)) == start + seq!['\''] + escaped(chars@),
        decreases chars@.len() - i,
    {
        let ghost before = script@;
        let ghost rest = chars@.skip(i + 1);
        assert(chars@.skip(i as int).skip(1) =~= rest);
        assert(chars@.skip(i as int)[0] == chars@[i as int]);
        if chars[i] == '\'' {
            script.push('\'');
            script.push('\\');
            script.push('\'');
            script.push('\'');
            assert(script@ + escaped(rest) =~= before + (seq!['\'', '\\', '\'', '\''] + escaped(
                rest,
            )));
        } else {
            script.push(chars[i]);
            assert(script@ + escaped(rest) =~= before + (seq![chars@[i as int]] + escaped(rest)));
        }
        i = i + 1;
    }
    assert(chars@.skip(i as int) =~= Seq::empty());
    assert(script@ =~= start + seq!['\''] + escaped(chars@));
    script.push('\'');
    assert(script@ =~= start + shell_word(path@));
}

/// The script that removes the entries, each by a command of its own.
pub fn cleanup_script(items: &Vec<StoredFileEntry>) -> (script: String)
    ensures
        script@ == script_for(items@, items@.len()),
{
    let mut script =
        "#!/bin/bash\n\n# Rootkitty cleanup script\n# Review carefully before running!\n\n".to_owned();
    let mut n: usize = 0;
    while n < items.len()
        invariant
            n <= items@.len(),
            script@ == script_for(items@, n as nat),
        decreases items@.len() - n,
    {
        let ghost before = script@;
        if items[n].is_dir {
            script.append("rm -rf ");
        } else {
            script.append("rm ");
        }
        push_word(&mut script, items[n].path.as_str());
        script.append("\n");
        assert(script@ =~= before + removal(items@[n as int].path@, items@[n as int].is_dir));
        n = n + 1;
    }
    script
}

/// Whether an entry is among the marked ones.
pub open spec fn marked(items: Seq<StoredFileEntry>, id: i64) -> bool {
    exists|i: int| 0 <= i < items.len() && (#[trigger] items[i]).id == id
}

/// Marking an entry marks it and no other.
pub proof fn law_marked_after_push(items: Seq<StoredFileEntry>, e: StoredFileEntry, id: i64)
    ensures
        !marked(Seq::empty(), id),
        marked(items.push(e), id) <==> id == e.id || marked(items, id),
{
    let all = items.push(e);
    if marked(items, id) {
        let i = choose|i: int| 0 <= i < items.len() && (#[trigger] items[i]).id == id;
        assert(all[i].id == id);
    }
    if id == e.id {
        assert(all[items.len() as int].id == id);
    }
    if marked(all, id) && id != e.id {
        let i = choose|i: int| 0 <= i < all.len() && (#[trigger] all[i]).id == id;
        assert(items[i].id == id);
    }
}

/// Whether the entry with this number is among the marked ones.
pub fn is_marked(items: &Vec<StoredFileEntry>, id: i64) -> (b: bool)
    ensures
        b == marked(items@, id),
{
    let mut i: usize = 0;
    while i < items.len()
        invariant
            i <= items@.len(),
            forall|k: int| 0 <= k < i ==> (#[trigger] items@[k]).id != id,
        decreases items@.len() - i,
    {
        if items[i].id == id {
            return true;
        }
        i = i + 1;
    }
    false
}

} // verus!
