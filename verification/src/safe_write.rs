//! Naming the temporary file of a safe write: the content is written to
//! a sibling file first and then renamed over the target, so a reader
//! never sees half a file.
use crate::text::string_of;
use crate::unix_path::{
    lemma_add_extension_parent, name_end, spec_add_extension, spec_file_name, spec_parent,
    UnixPath,
};
use vstd::prelude::*;

verus! {

/// The decimal digit for `v` in `0..10`.
pub open spec fn decimal_digit(v: int) -> char {
    (48 + v) as char
}

/// `n` written in decimal, as `format!("{}", n)` writes it.
pub open spec fn spec_decimal(n: nat) -> Seq<char>
    decreases n,
{
    if n < 10 {
        seq![decimal_digit(n as int)]
    } else {
        spec_decimal(n / 10).push(decimal_digit((n % 10) as int))
    }
}

pub proof fn lemma_decimal(n: nat)
    ensures
        spec_decimal(n).len() > 0,
        forall|i: int|
            0 <= i < spec_decimal(n).len() ==> '0' <= #[trigger] spec_decimal(n)[i] <= '9',
    decreases n,
{
    if n >= 10 {
        lemma_decimal(n / 10);
    }
}

/// The decimal digits of `n`.
pub fn decimal_chars(n: u32) -> (v: Vec<char>)
    ensures
        v@ == spec_decimal(n as nat),
    decreases n,
{
    if n < 10 {
        let d = (48u8 + n as u8) as char;
        vec![d]
    } else {
        let mut v = decimal_chars(n / 10);
        let d = (48u8 + (n % 10) as u8) as char;
        v.push(d);
        v
    }
}

pub open spec fn new_ext() -> Seq<char> {
    seq!['n', 'e', 'w']
}

/// The temporary path: `.{nonce}` and then `.new` added to the file name.
pub open spec fn spec_write_safe_temp_path(path: Seq<char>, nonce: u32) -> Seq<char> {
    spec_add_extension(spec_add_extension(path, spec_decimal(nonce as nat)), new_ext())
}

/// Where `write_safe` writes before it renames onto `path`.
///
/// For a path with a file name, the temporary file lies in the same
/// directory and is named `{file name}.{nonce}.new`; a path without a
/// file name is left as it is.
pub fn write_safe_temp_path(path: &UnixPath, nonce: u32) -> (r: UnixPath)
    ensures
        r@ == spec_write_safe_temp_path(path@, nonce),
        spec_file_name(path@) is None ==> r@ == path@,
        spec_file_name(path@) matches Some(f) ==> {
            &&& r@ == path@.subrange(0, name_end(path@)) + seq!['.'] + spec_decimal(nonce as nat)
                + seq!['.'] + new_ext()
            &&& spec_file_name(r@) == Some(
                f + seq!['.'] + spec_decimal(nonce as nat) + seq!['.'] + new_ext(),
            )
            &&& spec_parent(r@) == spec_parent(path@)
        },
{
    proof {
        reveal_strlit("new");
        assert("new"@ == new_ext());
        lemma_temp_path(path@, nonce);
    }
    let digits = decimal_chars(nonce);
    let mut temp = path.duplicate();
    temp.add_extension(string_of(&digits).as_str());
    temp.add_extension("new");
    temp
}

pub proof fn lemma_temp_path(path: Seq<char>, nonce: u32)
    ensures
        !spec_decimal(nonce as nat).contains('/'),
        spec_file_name(path) matches Some(f) ==> {
            &&& spec_write_safe_temp_path(path, nonce) == path.subrange(0, name_end(path)) + seq![
                '.',
            ] + spec_decimal(nonce as nat) + seq!['.'] + new_ext()
            &&& spec_file_name(spec_write_safe_temp_path(path, nonce)) == Some(
                f + seq!['.'] + spec_decimal(nonce as nat) + seq!['.'] + new_ext(),
            )
            &&& spec_parent(spec_write_safe_temp_path(path, nonce)) == spec_parent(path)
        },
{
    let d = spec_decimal(nonce as nat);
    lemma_decimal(nonce as nat);
    assert(!d.contains('/')) by {
        assert forall|i: int| 0 <= i < d.len() implies d[i] != '/' by {
            assert('0' <= d[i] <= '9');
        }
    }
    if let Some(f) = spec_file_name(path) {
        lemma_add_extension_parent(path, d);
        let t = spec_add_extension(path, d);
        lemma_add_extension_parent(t, new_ext());
        assert(t.subrange(0, name_end(t)) == t) by {
            crate::unix_path::lemma_name_tail(t, crate::unix_path::name_start(path));
        }
    }
}

/// A random number; nothing is known of which.
#[verifier::external_body]
fn random_u32() -> u32 {
    rand::RngCore::next_u32(&mut rand::thread_rng())
}

/// `write_safe_temp_path` with a fresh random nonce, as `write_safe`
/// picks it.
pub fn random_write_safe_temp_path(path: &UnixPath) -> (r: UnixPath)
    ensures
        exists|nonce: u32| r@ == spec_write_safe_temp_path(path@, nonce),
{
    let nonce = random_u32();
    write_safe_temp_path(path, nonce)
}

// ---------------------------------------------------------------------
// The steps of a safe write
// ---------------------------------------------------------------------

/// Where a safe write stands.
#[derive(PartialEq, Eq, Structural, Clone, Copy)]
pub enum WriteSafeStage {
    Start,
    CreatingDirs,
    CreatingTemp,
    Writing,
    Flushing,
    Syncing,
    Renaming,
    RemovingTemp,
    Done,
}

/// The next thing the caller is to do. After `WriteAll`, `Flush` and
/// `SyncAll` (on the open temporary file) and after the others, the
/// caller reports whether it succeeded. `Finish(true)` means the write
/// succeeded; `Finish(false)` means it failed with the error of the last
/// step that failed before it (the rename's, when the rename failed).
pub enum WriteSafeAction {
    CreateDirAll(UnixPath),
    CreateTemp(UnixPath),
    WriteAll,
    Flush,
    SyncAll,
    Rename { from: UnixPath, to: UnixPath },
    RemoveTemp(UnixPath),
    Finish(bool),
}

/// `WriteSafeAction` as the contracts speak of it.
pub enum WriteSafeActionView {
    CreateDirAll(Seq<char>),
    CreateTemp(Seq<char>),
    WriteAll,
    Flush,
    SyncAll,
    Rename { from: Seq<char>, to: Seq<char> },
    RemoveTemp(Seq<char>),
    Finish(bool),
}

impl View for WriteSafeAction {
    type V = WriteSafeActionView;

    open spec fn view(&self) -> WriteSafeActionView {
        match self {
            WriteSafeAction::CreateDirAll(p) => WriteSafeActionView::CreateDirAll(p@),
            WriteSafeAction::CreateTemp(p) => WriteSafeActionView::CreateTemp(p@),
            WriteSafeAction::WriteAll => WriteSafeActionView::WriteAll,
            WriteSafeAction::Flush => WriteSafeActionView::Flush,
            WriteSafeAction::SyncAll => WriteSafeActionView::SyncAll,
            WriteSafeAction::Rename { from, to } => WriteSafeActionView::Rename {
                from: from@,
                to: to@,
            },
            WriteSafeAction::RemoveTemp(p) => WriteSafeActionView::RemoveTemp(p@),
            WriteSafeAction::Finish(ok) => WriteSafeActionView::Finish(*ok),
        }
    }
}

/// The decisions of `write_safe`: from where it stands and whether the
/// last step succeeded, the next stage and what to do. Making the parent
/// directory may fail without harm; any other failure ends the write, and
/// a failed rename first removes the temporary file.
pub open spec fn spec_write_safe_step(
    stage: WriteSafeStage,
    path: Seq<char>,
    temp: Seq<char>,
    ok: bool,
) -> (WriteSafeStage, WriteSafeActionView) {
    match stage {
        WriteSafeStage::Start => match spec_parent(path) {
            Some(parent) => (WriteSafeStage::CreatingDirs, WriteSafeActionView::CreateDirAll(parent)),
            None => (WriteSafeStage::CreatingTemp, WriteSafeActionView::CreateTemp(temp)),
        },
        WriteSafeStage::CreatingDirs => (
            WriteSafeStage::CreatingTemp,
            WriteSafeActionView::CreateTemp(temp),
        ),
        WriteSafeStage::CreatingTemp => if ok {
            (WriteSafeStage::Writing, WriteSafeActionView::WriteAll)
        } else {
            (WriteSafeStage::Done, WriteSafeActionView::Finish(false))
        },
        WriteSafeStage::Writing => if ok {
            (WriteSafeStage::Flushing, WriteSafeActionView::Flush)
        } else {
            (WriteSafeStage::Done, WriteSafeActionView::Finish(false))
        },
        WriteSafeStage::Flushing => if ok {
            (WriteSafeStage::Syncing, WriteSafeActionView::SyncAll)
        } else {
            (WriteSafeStage::Done, WriteSafeActionView::Finish(false))
        },
        WriteSafeStage::Syncing => if ok {
            (WriteSafeStage::Renaming, WriteSafeActionView::Rename { from: temp, to: path })
        } else {
            (WriteSafeStage::Done, WriteSafeActionView::Finish(false))
        },
        WriteSafeStage::Renaming => if ok {
            (WriteSafeStage::Done, WriteSafeActionView::Finish(true))
        } else {
            (WriteSafeStage::RemovingTemp, WriteSafeActionView::RemoveTemp(temp))
        },
        WriteSafeStage::RemovingTemp => (WriteSafeStage::Done, WriteSafeActionView::Finish(false)),
        WriteSafeStage::Done => (WriteSafeStage::Done, WriteSafeActionView::Finish(false)),
    }
}

/// How many steps a write can still take at most.
pub open spec fn stage_rank(stage: WriteSafeStage) -> nat {
    match stage {
        WriteSafeStage::Start => 8,
        WriteSafeStage::CreatingDirs => 7,
        WriteSafeStage::CreatingTemp => 6,
        WriteSafeStage::Writing => 5,
        WriteSafeStage::Flushing => 4,
        WriteSafeStage::Syncing => 3,
        WriteSafeStage::Renaming => 2,
        WriteSafeStage::RemovingTemp => 1,
        WriteSafeStage::Done => 0,
    }
}

/// Stages whose step works on the temporary file: creating, writing,
/// flushing and syncing it.
pub open spec fn is_file_step(stage: WriteSafeStage) -> bool {
    stage == WriteSafeStage::CreatingTemp || stage == WriteSafeStage::Writing || stage
        == WriteSafeStage::Flushing || stage == WriteSafeStage::Syncing
}

/// A safe write of `path` through the temporary file `temp`.
pub struct WriteSafe {
    pub stage: WriteSafeStage,
    pub path: UnixPath,
    pub temp: UnixPath,
}

impl WriteSafe {
    /// A safe write of `path` through the temporary file for `nonce`.
    pub fn with_nonce(path: &UnixPath, nonce: u32) -> (r: Self)
        ensures
            r.stage == WriteSafeStage::Start,
            r.path@ == path@,
            r.temp@ == spec_write_safe_temp_path(path@, nonce),
    {
        WriteSafe {
            stage: WriteSafeStage::Start,
            path: path.duplicate(),
            temp: write_safe_temp_path(path, nonce),
        }
    }

    /// A safe write of `path` through a temporary file with a random
    /// nonce.
    pub fn new(path: &UnixPath) -> (r: Self)
        ensures
            r.stage == WriteSafeStage::Start,
            r.path@ == path@,
            exists|nonce: u32| r.temp@ == spec_write_safe_temp_path(path@, nonce),
    {
        WriteSafe {
            stage: WriteSafeStage::Start,
            path: path.duplicate(),
            temp: random_write_safe_temp_path(path),
        }
    }

    /// The next action, given whether the last one succeeded (ignored at
    /// the start).
    pub fn step(&mut self, ok: bool) -> (a: WriteSafeAction)
        requires
            old(self).stage != WriteSafeStage::Done,
        ensures
            (final(self).stage, a@) == spec_write_safe_step(
                old(self).stage,
                old(self).path@,
                old(self).temp@,
                ok,
            ),
            final(self).path@ == old(self).path@,
            final(self).temp@ == old(self).temp@,
            stage_rank(final(self).stage) < stage_rank(old(self).stage),
            a@ is Rename ==> old(self).stage == WriteSafeStage::Syncing && ok,
            a@ == WriteSafeActionView::Finish(true) ==> old(self).stage == WriteSafeStage::Renaming
                && ok,
            !ok && is_file_step(old(self).stage) ==> final(self).stage == WriteSafeStage::Done
                && a@ == WriteSafeActionView::Finish(false),
    {
        let (stage, action) = match self.stage {
            WriteSafeStage::Start => match self.path.parent() {
                Some(parent) => (WriteSafeStage::CreatingDirs, WriteSafeAction::CreateDirAll(parent)),
                None => (WriteSafeStage::CreatingTemp, WriteSafeAction::CreateTemp(self.temp.duplicate())),
            },
            WriteSafeStage::CreatingDirs => (
                WriteSafeStage::CreatingTemp,
                WriteSafeAction::CreateTemp(self.temp.duplicate()),
            ),
            WriteSafeStage::CreatingTemp => if ok {
                (WriteSafeStage::Writing, WriteSafeAction::WriteAll)
            } else {
                (WriteSafeStage::Done, WriteSafeAction::Finish(false))
            },
            WriteSafeStage::Writing => if ok {
                (WriteSafeStage::Flushing, WriteSafeAction::Flush)
            } else {
                (WriteSafeStage::Done, WriteSafeAction::Finish(false))
            },
            WriteSafeStage::Flushing => if ok {
                (WriteSafeStage::Syncing, WriteSafeAction::SyncAll)
            } else {
                (WriteSafeStage::Done, WriteSafeAction::Finish(false))
            },
            WriteSafeStage::Syncing => if ok {
                (
                    WriteSafeStage::Renaming,
                    WriteSafeAction::Rename { from: self.temp.duplicate(), to: self.path.duplicate() },
                )
            } else {
                (WriteSafeStage::Done, WriteSafeAction::Finish(false))
            },
            WriteSafeStage::Renaming => if ok {
                (WriteSafeStage::Done, WriteSafeAction::Finish(true))
            } else {
                (WriteSafeStage::RemovingTemp, WriteSafeAction::RemoveTemp(self.temp.duplicate()))
            },
            WriteSafeStage::RemovingTemp => (WriteSafeStage::Done, WriteSafeAction::Finish(false)),
            WriteSafeStage::Done => (WriteSafeStage::Done, WriteSafeAction::Finish(false)),
        };
        self.stage = stage;
        action
    }
}

/// When every step succeeds, a safe write makes the parent directory (if
/// the path has one), creates, writes, flushes and syncs the temporary
/// file, renames it onto the path and finishes with success.
pub proof fn law_write_safe_all_ok(path: Seq<char>, temp: Seq<char>)
    ensures
        ({
            let s0 = WriteSafeStage::Start;
            let (s1, a1) = spec_write_safe_step(s0, path, temp, true);
            let s1b = if spec_parent(path) is Some {
                spec_write_safe_step(s1, path, temp, true).0
            } else {
                s1
            };
            let a1b = spec_write_safe_step(s1, path, temp, true).1;
            let (s2, a2) = spec_write_safe_step(s1b, path, temp, true);
            let (s3, a3) = spec_write_safe_step(s2, path, temp, true);
            let (s4, a4) = spec_write_safe_step(s3, path, temp, true);
            let (s5, a5) = spec_write_safe_step(s4, path, temp, true);
            let (s6, a6) = spec_write_safe_step(s5, path, temp, true);
            &&& (spec_parent(path) matches Some(par) ==> a1 == WriteSafeActionView::CreateDirAll(
                par,
            ) && a1b == WriteSafeActionView::CreateTemp(temp))
            &&& (spec_parent(path) is None ==> a1 == WriteSafeActionView::CreateTemp(temp))
            &&& a2 == WriteSafeActionView::WriteAll
            &&& a3 == WriteSafeActionView::Flush
            &&& a4 == WriteSafeActionView::SyncAll
            &&& a5 == WriteSafeActionView::Rename { from: temp, to: path }
            &&& a6 == WriteSafeActionView::Finish(true)
            &&& s6 == WriteSafeStage::Done
        }),
{
}

/// A failed rename removes the temporary file and then reports failure.
pub proof fn law_write_safe_rename_failure(path: Seq<char>, temp: Seq<char>, ok: bool)
    ensures
        spec_write_safe_step(WriteSafeStage::Renaming, path, temp, false) == (
            WriteSafeStage::RemovingTemp,
            WriteSafeActionView::RemoveTemp(temp),
        ),
        spec_write_safe_step(WriteSafeStage::RemovingTemp, path, temp, ok) == (
            WriteSafeStage::Done,
            WriteSafeActionView::Finish(false),
        ),
{
}

/// Only the rename touches the path itself: every other action works on
/// its parent directory or on the temporary file.
pub proof fn law_write_safe_only_rename_touches_path(
    stage: WriteSafeStage,
    path: Seq<char>,
    temp: Seq<char>,
    ok: bool,
)
    ensures
        ({
            let a = spec_write_safe_step(stage, path, temp, ok).1;
            &&& (a matches WriteSafeActionView::CreateDirAll(d) ==> spec_parent(path) == Some(d))
            &&& (a matches WriteSafeActionView::CreateTemp(t) ==> t == temp)
            &&& (a matches WriteSafeActionView::RemoveTemp(t) ==> t == temp)
            &&& (a matches WriteSafeActionView::Rename { from, to } ==> from == temp && to == path)
        }),
{
}

/// A failure to create, write, flush or sync the temporary file ends the
/// write at once with failure: no rename follows.
pub proof fn law_write_safe_file_failure_stops(
    stage: WriteSafeStage,
    path: Seq<char>,
    temp: Seq<char>,
)
    requires
        is_file_step(stage),
    ensures
        spec_write_safe_step(stage, path, temp, false) == (
            WriteSafeStage::Done,
            WriteSafeActionView::Finish(false),
        ),
{
}

/// Each stage of the write is reached only when the step before it
/// succeeded: the temporary file is written only once created, flushed
/// only once written, synced only once flushed, renamed only once synced,
/// and the write succeeds only once renamed. So `Finish(true)` comes only
/// after create, write, flush, sync and rename all succeeded.
pub proof fn law_write_safe_stages_need_success(
    stage: WriteSafeStage,
    path: Seq<char>,
    temp: Seq<char>,
    ok: bool,
)
    ensures
        ({
            let (next, a) = spec_write_safe_step(stage, path, temp, ok);
            &&& next == WriteSafeStage::Writing ==> stage == WriteSafeStage::CreatingTemp && ok
            &&& next == WriteSafeStage::Flushing ==> stage == WriteSafeStage::Writing && ok
            &&& next == WriteSafeStage::Syncing ==> stage == WriteSafeStage::Flushing && ok
            &&& next == WriteSafeStage::Renaming ==> stage == WriteSafeStage::Syncing && ok
            &&& (a is Rename ==> stage == WriteSafeStage::Syncing && ok)
            &&& (a == WriteSafeActionView::Finish(true) ==> stage == WriteSafeStage::Renaming && ok)
            &&& (a is WriteAll ==> stage == WriteSafeStage::CreatingTemp && ok)
            &&& (a is Flush ==> stage == WriteSafeStage::Writing && ok)
            &&& (a is SyncAll ==> stage == WriteSafeStage::Flushing && ok)
        }),
{
}

/// The actions of a write fed the outcomes `oks` in turn (the first
/// outcome is ignored, as at the start nothing has been done yet), until
/// it finishes.
pub open spec fn write_safe_run(
    stage: WriteSafeStage,
    path: Seq<char>,
    temp: Seq<char>,
    oks: Seq<bool>,
) -> Seq<WriteSafeActionView>
    decreases oks.len(),
{
    if oks.len() == 0 || stage == WriteSafeStage::Done {
        Seq::empty()
    } else {
        let (next, a) = spec_write_safe_step(stage, path, temp, oks[0]);
        seq![a] + write_safe_run(next, path, temp, oks.drop_first())
    }
}

/// Over any outcomes, a write that reports success has issued exactly
/// the rename of the temporary file onto the path just before, and every
/// action before that succeeded: a failed step anywhere means failure.
pub proof fn law_write_safe_success_means_all_succeeded(
    path: Seq<char>,
    temp: Seq<char>,
    oks: Seq<bool>,
    i: int,
)
    requires
        0 < i < write_safe_run(WriteSafeStage::Start, path, temp, oks).len(),
        write_safe_run(WriteSafeStage::Start, path, temp, oks)[i] == WriteSafeActionView::Finish(
            true,
        ),
    ensures
        write_safe_run(WriteSafeStage::Start, path, temp, oks)[i - 1] == (WriteSafeActionView::Rename {
            from: temp,
            to: path,
        }),
        forall|j: int| 1 <= j <= i ==> #[trigger] oks[j] || (j == 1 && spec_parent(path) is Some),
{
    lemma_run_success(WriteSafeStage::Start, path, temp, oks, i, 0);
}

/// The stage reached after `n` steps of a run.
pub open spec fn stage_after(
    stage: WriteSafeStage,
    path: Seq<char>,
    temp: Seq<char>,
    oks: Seq<bool>,
    n: nat,
) -> WriteSafeStage
    decreases n,
{
    if n == 0 || oks.len() == 0 || stage == WriteSafeStage::Done {
        stage
    } else {
        stage_after(
            spec_write_safe_step(stage, path, temp, oks[0]).0,
            path,
            temp,
            oks.drop_first(),
            (n - 1) as nat,
        )
    }
}

proof fn lemma_run_len(stage: WriteSafeStage, path: Seq<char>, temp: Seq<char>, oks: Seq<bool>)
    ensures
        write_safe_run(stage, path, temp, oks).len() <= oks.len(),
    decreases oks.len(),
{
    if oks.len() > 0 && stage != WriteSafeStage::Done {
        let next = spec_write_safe_step(stage, path, temp, oks[0]).0;
        lemma_run_len(next, path, temp, oks.drop_first());
    }
}

proof fn lemma_run_success(
    stage: WriteSafeStage,
    path: Seq<char>,
    temp: Seq<char>,
    oks: Seq<bool>,
    i: int,
    offset: int,
)
    requires
        0 <= i < write_safe_run(stage, path, temp, oks).len(),
        write_safe_run(stage, path, temp, oks)[i] == WriteSafeActionView::Finish(true),
        0 <= offset,
        offset == 0 ==> stage == WriteSafeStage::Start,
        offset > 0 ==> stage != WriteSafeStage::Start,
    ensures
        i < oks.len(),
        i > 0 ==> write_safe_run(stage, path, temp, oks)[i - 1] == (WriteSafeActionView::Rename {
            from: temp,
            to: path,
        }),
        i == 0 ==> stage == WriteSafeStage::Renaming && oks[0],
        i > 0 && stage != WriteSafeStage::Start && stage != WriteSafeStage::CreatingDirs ==> oks[0],
        forall|j: int|
            1 <= j <= i ==> #[trigger] oks[j] || (j == 1 && offset == 0 && spec_parent(path) is Some),
        i > 0 ==> stage != WriteSafeStage::Renaming,
    decreases oks.len(),
{
    lemma_run_len(stage, path, temp, oks);
    let run = write_safe_run(stage, path, temp, oks);
    let (next, a) = spec_write_safe_step(stage, path, temp, oks[0]);
    let rest = write_safe_run(next, path, temp, oks.drop_first());
    assert(run == seq![a] + rest);
    if i > 0 {
        assert(rest[i - 1] == run[i]);
        // a write that has stopped, or only removes its temporary file,
        // cannot go on to succeed
        assert(next != WriteSafeStage::Done);
        if next == WriteSafeStage::RemovingTemp {
            let later = oks.drop_first();
            let tail = write_safe_run(WriteSafeStage::Done, path, temp, later.drop_first());
            assert(tail.len() == 0);
            assert(rest == seq![WriteSafeActionView::Finish(false)] + tail);
            assert(false);
        }
        lemma_run_success(next, path, temp, oks.drop_first(), i - 1, offset + 1);
        assert forall|j: int|
            1 <= j <= i implies #[trigger] oks[j] || (j == 1 && offset == 0 && spec_parent(
            path,
        ) is Some) by {
            assert(oks.drop_first()[j - 1] == oks[j]);
        }
        if i == 1 {
            assert(next == WriteSafeStage::Renaming);
            assert(a == (WriteSafeActionView::Rename { from: temp, to: path }));
        }
    } else {
        assert(a == WriteSafeActionView::Finish(true));
    }
}

} // verus!
