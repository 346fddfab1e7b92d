//! The decisions behind the profile page: which rows the list shows, what
//! each subscription row says and which of its controls are live.
use vstd::prelude::*;
use crate::date_text::{format_profile_time, profile_time_text};

verus! {

/// What the profile page reads of a saved profile.
#[derive(Clone, Debug)]
pub struct ProfileMeta {
    /// Stable identifier of the profile.
    pub id: String,
    /// Display name.
    pub name: String,
    /// Subscription link; `None` for a profile imported from a local file.
    pub url: Option<String>,
    /// UNIX time in seconds of the last successful update; 0 if never.
    pub updated_at: u64,
    /// Automatic update interval in minutes; 0 turns it off.
    pub update_interval_minutes: u64,
    /// UNIX time in seconds of the last automatic update attempt.
    pub last_auto_attempt_at: u64,
}

/// One entry of the profile list, top to bottom.
#[derive(Clone, Copy, Debug, PartialEq, Eq, Structural)]
pub enum ProfileListRow {
    /// The built-in default profile, always first.
    Builtin,
    /// The saved profile at this index.
    Profile(usize),
    /// The inline editor of the profile just above it.
    Editor,
}

/// Where a profile's configuration comes from.
#[derive(Clone, Copy, Debug, PartialEq, Eq, Structural)]
pub enum ProfileSource {
    /// Downloaded from a subscription link.
    Subscription,
    /// Imported from a local file.
    Local,
}

/// The rows for the saved profiles `0..count`, each followed by the editor
/// when it is the profile being edited.
pub open spec fn saved_profile_rows(count: nat, editing: Option<usize>) -> Seq<ProfileListRow>
    decreases count,
{
    if count == 0 {
        seq![]
    } else {
        let i = (count - 1) as nat;
        let row = seq![ProfileListRow::Profile(i as usize)];
        let editor = if editing == Some(i as usize) { seq![ProfileListRow::Editor] } else { seq![] };
        saved_profile_rows(i, editing) + row + editor
    }
}

/// The whole list: the built-in profile, then the saved profiles in order,
/// with the editor right below the profile being edited.
pub open spec fn profile_list(count: nat, editing: Option<usize>) -> Seq<ProfileListRow> {
    seq![ProfileListRow::Builtin] + saved_profile_rows(count, editing)
}

/// The number of editor rows among the rows of the profiles `0..count`.
pub open spec fn editors_before(count: nat, editing: Option<usize>) -> nat {
    match editing {
        Some(e) => if (e as nat) < count { 1 } else { 0 },
        None => 0,
    }
}

/// The list holds the built-in row, one row per saved profile, and one
/// editor row exactly when the profile being edited exists; saved profile
/// `i` stands at position `1 + i`, moved down by one when the editor opens
/// above it, and the editor of a profile comes right after it.
pub proof fn lemma_profile_list_shape(count: nat, editing: Option<usize>, i: nat)
    requires
        i < count,
        count <= usize::MAX + 1,
    ensures
        profile_list(count, editing).len() == 1 + count + editors_before(count, editing),
        profile_list(count, editing)[(1 + i + editors_before(i, editing)) as int] == ProfileListRow::Profile(i as usize),
        editing == Some(i as usize) ==> profile_list(count, editing)[(2 + i + editors_before(i, editing)) as int]
            == ProfileListRow::Editor,
    decreases count,
{
    lemma_saved_rows_len(count, editing);
    lemma_saved_rows_len(i, editing);
    let last = (count - 1) as nat;
    if i < last {
        lemma_profile_list_shape(last, editing, i);
        lemma_saved_rows_len(last, editing);
        assert(saved_profile_rows(count, editing).subrange(0, saved_profile_rows(last, editing).len() as int)
            =~= saved_profile_rows(last, editing));
    } else {
        assert(i == last);
    }
}

/// The built-in row heads the list and appears nowhere else in it.
pub proof fn lemma_profile_list_builtin_first(count: nat, editing: Option<usize>)
    ensures
        profile_list(count, editing).len() >= 1,
        profile_list(count, editing)[0] == ProfileListRow::Builtin,
        forall|k: int| 0 < k < profile_list(count, editing).len() ==> #[trigger] profile_list(count, editing)[k]
            != ProfileListRow::Builtin,
{
    lemma_saved_rows_no_builtin(count, editing);
    let saved = saved_profile_rows(count, editing);
    assert forall|k: int| 0 < k < profile_list(count, editing).len() implies #[trigger] profile_list(count, editing)[k]
        != ProfileListRow::Builtin by {
        assert(profile_list(count, editing)[k] == saved[k - 1]);
    }
}

/// The rows of the saved profiles never include the built-in row.
proof fn lemma_saved_rows_no_builtin(count: nat, editing: Option<usize>)
    ensures
        forall|k: int| 0 <= k < saved_profile_rows(count, editing).len() ==> #[trigger] saved_profile_rows(count, editing)[k]
            != ProfileListRow::Builtin,
    decreases count,
{
    if count > 0 {
        let last = (count - 1) as nat;
        lemma_saved_rows_no_builtin(last, editing);
        let prev = saved_profile_rows(last, editing);
        let cur = saved_profile_rows(count, editing);
        assert forall|k: int| 0 <= k < cur.len() implies #[trigger] cur[k] != ProfileListRow::Builtin by {
            if k < prev.len() {
                assert(cur[k] == prev[k]);
            }
        }
    }
}

/// The saved rows of `count` profiles number `count` plus the open editor.
proof fn lemma_saved_rows_len(count: nat, editing: Option<usize>)
    requires
        count <= usize::MAX + 1,
    ensures
        saved_profile_rows(count, editing).len() == count + editors_before(count, editing),
    decreases count,
{
    if count > 0 {
        lemma_saved_rows_len((count - 1) as nat, editing);
    }
}

/// The rows of the profile list for `count` saved profiles, `editing` being
/// the index of the profile whose editor is open, if any.
pub fn profile_list_rows(count: usize, editing: Option<usize>) -> (rows: Vec<ProfileListRow>)
    ensures
        rows@ == profile_list(count as nat, editing),
        rows@.len() == 1 + count + editors_before(count as nat, editing),
        rows@[0] == ProfileListRow::Builtin,
        forall|k: int| 0 < k < rows@.len() ==> #[trigger] rows@[k] != ProfileListRow::Builtin,
        forall|i: nat| i < count ==> rows@[(1 + i + #[trigger] editors_before(i, editing)) as int]
            == ProfileListRow::Profile(i as usize),
        forall|e: usize| editing == Some(e) && e < count ==> rows@[(2 + e + editors_before(e as nat, editing)) as int]
            == ProfileListRow::Editor,
{
    let mut rows: Vec<ProfileListRow> = Vec::new();
    rows.push(ProfileListRow::Builtin);
    let mut index: usize = 0;
    while index < count
        invariant
            index <= count,
            rows@ == profile_list(index as nat, editing),
        decreases count - index,
    {
        rows.push(ProfileListRow::Profile(index));
        if editing == Some(index) {
            rows.push(ProfileListRow::Editor);
        }
        index = index + 1;
        assert(rows@ =~= profile_list(index as nat, editing));
    }
    proof {
        lemma_profile_list_builtin_first(count as nat, editing);
        lemma_saved_rows_len(count as nat, editing);
        assert forall|i: nat| i < count implies rows@[(1 + i + #[trigger] editors_before(i, editing)) as int]
            == ProfileListRow::Profile(i as usize) by {
            lemma_profile_list_shape(count as nat, editing, i);
        }
        assert forall|e: usize| editing == Some(e) && e < count implies rows@[(2 + e + editors_before(e as nat, editing)) as int]
            == ProfileListRow::Editor by {
            lemma_profile_list_shape(count as nat, editing, e as nat);
        }
    }
    rows
}

/// The built-in profile's row is shown as active while no saved profile is.
pub open spec fn builtin_row_is_active(active_profile: Option<Seq<char>>) -> bool {
    active_profile is None
}

/// A saved profile's row is shown as active when its id is the active one.
pub open spec fn profile_row_is_active(active_profile: Option<Seq<char>>, id: Seq<char>) -> bool {
    active_profile == Some(id)
}

/// Whether the built-in profile's row is the active one.
pub fn builtin_row_active(active_profile: &Option<String>) -> (active: bool)
    ensures
        active == builtin_row_is_active(active_profile.deep_view()),
{
    active_profile.is_none()
}

/// When the saved profiles have distinct ids, at most one row of the list is
/// shown as active: the built-in row exactly when no profile is active, and
/// otherwise the row of the profile with the active id, if there is one.
pub proof fn lemma_at_most_one_active_row(active_profile: Option<Seq<char>>, ids: Seq<Seq<char>>)
    requires
        forall|i: int, j: int| 0 <= i < ids.len() && 0 <= j < ids.len() && i != j ==> ids[i] != ids[j],
    ensures
        builtin_row_is_active(active_profile) ==> forall|i: int|
            0 <= i < ids.len() ==> !profile_row_is_active(active_profile, #[trigger] ids[i]),
        forall|i: int, j: int|
            0 <= i < ids.len() && 0 <= j < ids.len() && profile_row_is_active(active_profile, #[trigger] ids[i])
                && profile_row_is_active(active_profile, #[trigger] ids[j]) ==> i == j,
        (builtin_row_is_active(active_profile) || exists|i: int|
            0 <= i < ids.len() && profile_row_is_active(active_profile, #[trigger] ids[i]))
            <==> (active_profile is None || ids.contains(active_profile->0)),
{
}

/// What a saved profile's row shows and which of its controls are live.
#[derive(Clone, Debug)]
pub struct ProfileRowState {
    /// The profile is the active one.
    pub active: bool,
    /// Where its configuration comes from.
    pub source: ProfileSource,
    /// Date of the last update, `None` when it was never updated.
    pub updated: Option<String>,
    /// The automatic update interval in minutes, when one is set.
    pub auto_interval_minutes: Option<u64>,
    /// The last automatic update attempt came after the last success.
    pub auto_update_failed: bool,
    /// The row's actions are locked: dimmed, and neither dragged nor a drop
    /// target.
    pub locked: bool,
    /// The edit and update buttons are shown (subscriptions only).
    pub has_link_actions: bool,
    /// The edit button is dimmed.
    pub edit_dimmed: bool,
}

/// The row of `meta`, given the id of the active profile (if any), whether
/// the profile actions are locked and whether the add form is open.
pub fn profile_row_state(
    active_profile: &Option<String>,
    meta: &ProfileMeta,
    locked: bool,
    form_open: bool,
) -> (state: ProfileRowState)
    ensures
        state.active == profile_row_is_active(active_profile.deep_view(), meta.id@),
        state.source == (if meta.url.is_some() { ProfileSource::Subscription } else { ProfileSource::Local }),
        state.updated.deep_view() == profile_time_text(meta.updated_at as nat),
        state.auto_interval_minutes == (if meta.update_interval_minutes > 0 {
            Some(meta.update_interval_minutes)
        } else {
            None
        }),
        state.auto_update_failed == (meta.last_auto_attempt_at > meta.updated_at),
        state.locked == locked,
        state.has_link_actions == meta.url.is_some(),
        state.edit_dimmed == (locked || form_open),
{
    let active = match active_profile {
        Some(id) => id.eq(&meta.id),
        None => false,
    };
    let source = if meta.url.is_some() { ProfileSource::Subscription } else { ProfileSource::Local };
    let auto_interval_minutes = if meta.update_interval_minutes > 0 {
        Some(meta.update_interval_minutes)
    } else {
        None
    };
    ProfileRowState {
        active,
        source,
        updated: format_profile_time(meta.updated_at),
        auto_interval_minutes,
        auto_update_failed: meta.last_auto_attempt_at > meta.updated_at,
        locked,
        has_link_actions: meta.url.is_some(),
        edit_dimmed: locked || form_open,
    }
}

/// The separator between the parts of a row's subtitle.
pub open spec fn detail_separator() -> Seq<char> {
    seq![' ', '\u{b7}', ' ']
}

/// The subtitle of a row: the "source · updated" text, then " · " and the
/// automatic update text when there is one, then " · " and the failure text
/// when there is one.
pub open spec fn detail_text(base: Seq<char>, interval: Option<Seq<char>>, failure: Option<Seq<char>>) -> Seq<char> {
    let with_interval = match interval {
        Some(t) => base + detail_separator() + t,
        None => base,
    };
    match failure {
        Some(t) => with_interval + detail_separator() + t,
        None => with_interval,
    }
}

/// The length a subtitle part adds: the separator and the part, or nothing.
pub open spec fn part_len(part: Option<Seq<char>>) -> int {
    if part is Some { 3 + part->0.len() as int } else { 0 }
}

/// A subtitle starts with the base text; an interval text, when given,
/// follows it right after " · "; a failure text, when given, ends the
/// subtitle right after " · "; and nothing else is in it.
pub proof fn lemma_detail_text_parts(base: Seq<char>, interval: Option<Seq<char>>, failure: Option<Seq<char>>)
    ensures
        ({
            let t = detail_text(base, interval, failure);
            &&& t.len() == base.len() + part_len(interval) + part_len(failure)
            &&& t.subrange(0, base.len() as int) == base
            &&& interval is Some ==> t.subrange(base.len() as int, base.len() + part_len(interval))
                == seq![' ', '\u{b7}', ' '] + interval->0
            &&& failure is Some ==> t.subrange(t.len() - part_len(failure), t.len() as int)
                == seq![' ', '\u{b7}', ' '] + failure->0
        }),
{
    let sep = seq![' ', '\u{b7}', ' '];
    let w = match interval {
        Some(i) => base + sep + i,
        None => base,
    };
    assert(w.len() == base.len() + part_len(interval));
    assert(w.subrange(0, base.len() as int) =~= base);
    if interval is Some {
        assert(w.subrange(base.len() as int, base.len() + part_len(interval)) =~= sep + interval->0);
    }
    let t = detail_text(base, interval, failure);
    match failure {
        Some(f) => {
            assert(t == w + sep + f);
            assert(t.subrange(0, base.len() as int) =~= w.subrange(0, base.len() as int));
            if interval is Some {
                assert(t.subrange(base.len() as int, base.len() + part_len(interval))
                    =~= w.subrange(base.len() as int, base.len() + part_len(interval)));
            }
            assert(t.subrange(t.len() - part_len(failure), t.len() as int) =~= sep + f);
        },
        None => {},
    }
}

/// Builds a row's subtitle from its already translated parts.
pub fn profile_detail(base: &str, interval: Option<&str>, failure: Option<&str>) -> (text: String)
    ensures
        text@ == detail_text(base@, interval.deep_view(), failure.deep_view()),
        text@.len() == base@.len() + part_len(interval.deep_view()) + part_len(failure.deep_view()),
        text@.subrange(0, base@.len() as int) == base@,
        interval matches Some(i) ==> text@.subrange(base@.len() as int, (base@.len() + 3 + i@.len()) as int)
            == seq![' ', '\u{b7}', ' '] + i@,
        failure matches Some(f) ==> text@.subrange((text@.len() - 3 - f@.len()) as int, text@.len() as int)
            == seq![' ', '\u{b7}', ' '] + f@,
{
    proof {
        reveal_strlit(" \u{b7} ");
    }
    let mut text = String::from_str(base);
    match interval {
        Some(t) => {
            text.append(" \u{b7} ");
            text.append(t);
        },
        None => {},
    }
    match failure {
        Some(t) => {
            text.append(" \u{b7} ");
            text.append(t);
        },
        None => {},
    }
    proof {
        lemma_detail_text_parts(base@, interval.deep_view(), failure.deep_view());
    }
    text
}

} // verus!
