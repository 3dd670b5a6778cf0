//! Finds the skill that the model asks for among those that were listed to it.
//!
//! A name is looked up on the host of the session only, so that skills of the same name on
//! this machine and on other hosts are never mixed up.

use vstd::prelude::*;
use crate::json;
use crate::json::{print_object, quote, JsonField};
use crate::text;

verus! {

/// Stands in front of the id of a skill that comes with the program.
pub const BUNDLED_PREFIX: &'static str = "@warp-skill:";

#[derive(Debug, Clone, Copy, PartialEq, Eq, Structural)]
pub enum SkillResolutionError {
    /// No listed skill of this host has the name.
    NotAvailable,
    /// Several listed skills of this host have the name.
    Ambiguous,
}

/// Names a host.
#[derive(Debug, PartialEq, Eq)]
pub struct HostId {
    pub name: String,
}

impl Clone for HostId {
    fn clone(&self) -> (r: Self)
        ensures
            r == *self,
    {
        HostId { name: self.name.clone() }
    }
}

#[derive(Debug, Clone, PartialEq, Eq)]
pub struct RemotePath {
    pub host_id: HostId,
    pub path: String,
}

#[derive(Debug, Clone, PartialEq, Eq)]
pub enum LocalOrRemotePath {
    Local(String),
    Remote(RemotePath),
}

#[derive(Debug, Clone, PartialEq, Eq)]
pub enum SkillReference {
    Path(LocalOrRemotePath),
    BundledSkillId(String),
}

/// A skill as it was listed to the model.
#[derive(Debug, Clone, PartialEq, Eq)]
pub struct SkillDescriptor {
    pub name: String,
    pub description: String,
    pub reference: SkillReference,
}

/// Where the skills of a session come from.
#[derive(Debug, Clone, PartialEq, Eq)]
pub enum SkillPathOrigin {
    Local,
    Remote { host_id: HostId },
    /// Known from an old conversation. It is shown and never used to run anything.
    RestoredDisplayOnly,
    Unavailable,
}

/// A skill as an action names it.
#[derive(Debug, Clone, PartialEq, Eq)]
pub enum ActionSkillReference {
    SkillPath(String),
    BundledSkillId(String),
}

/// The call that reads a skill.
#[derive(Debug, Clone, PartialEq, Eq)]
pub struct ReadSkill {
    pub skill_reference: Option<ActionSkillReference>,
    /// The name that the model gave.
    pub name: String,
}

pub enum ReferenceView {
    Local(Seq<char>),
    Remote(Seq<char>, Seq<char>),
    Bundled(Seq<char>),
}

impl View for SkillReference {
    type V = ReferenceView;

    open spec fn view(&self) -> ReferenceView {
        match self {
            SkillReference::Path(LocalOrRemotePath::Local(path)) => ReferenceView::Local(path@),
            SkillReference::Path(LocalOrRemotePath::Remote(remote)) => ReferenceView::Remote(
                remote.host_id.name@,
                remote.path@,
            ),
            SkillReference::BundledSkillId(id) => ReferenceView::Bundled(id@),
        }
    }
}

/// The skill is one of this origin. An origin that is not known for sure has none.
pub open spec fn on_host(reference: ReferenceView, origin: SkillPathOrigin) -> bool {
    match (origin, reference) {
        (SkillPathOrigin::Local, ReferenceView::Local(_)) => true,
        (SkillPathOrigin::Local, ReferenceView::Bundled(_)) => true,
        (SkillPathOrigin::Remote { host_id }, ReferenceView::Remote(host, _)) => host
            == host_id.name@,
        _ => false,
    }
}

/// The full path, or the id with its prefix, by which a skill can be told from others of its
/// name.
pub open spec fn address(reference: ReferenceView) -> Seq<char> {
    match reference {
        ReferenceView::Local(path) => path,
        ReferenceView::Remote(_, path) => path,
        ReferenceView::Bundled(id) => BUNDLED_PREFIX@ + id,
    }
}

/// The model means this skill when it says `name` in a session of this origin.
pub open spec fn meant(skill: SkillDescriptor, name: Seq<char>, origin: SkillPathOrigin) -> bool {
    on_host(skill.reference@, origin) && (skill.name@ == name || address(skill.reference@) == name)
}

/// The first skill that is meant.
pub open spec fn first_meant(
    skills: Seq<SkillDescriptor>,
    name: Seq<char>,
    origin: SkillPathOrigin,
    k: int,
) -> bool {
    &&& 0 <= k < skills.len()
    &&& meant(skills[k], name, origin)
    &&& forall|j: int| 0 <= j < k ==> !meant(#[trigger] skills[j], name, origin)
}

/// Two different skills are meant.
pub open spec fn ambiguous(
    skills: Seq<SkillDescriptor>,
    name: Seq<char>,
    origin: SkillPathOrigin,
) -> bool {
    exists|i: int, j: int|
        0 <= i < j < skills.len() && meant(#[trigger] skills[i], name, origin) && meant(
            #[trigger] skills[j],
            name,
            origin,
        ) && skills[i].reference@ != skills[j].reference@
}

pub open spec fn available(
    skills: Seq<SkillDescriptor>,
    name: Seq<char>,
    origin: SkillPathOrigin,
) -> bool {
    exists|k: int| 0 <= k < skills.len() && meant(#[trigger] skills[k], name, origin)
}

/// The action names the skill by its path or its id.
pub open spec fn names(action: Option<ActionSkillReference>, reference: ReferenceView) -> bool {
    match (action, reference) {
        (Some(ActionSkillReference::SkillPath(p)), ReferenceView::Local(path)) => p@ == path,
        (Some(ActionSkillReference::SkillPath(p)), ReferenceView::Remote(_, path)) => p@ == path,
        (Some(ActionSkillReference::BundledSkillId(i)), ReferenceView::Bundled(id)) => i@ == id,
        _ => false,
    }
}

impl LocalOrRemotePath {
    pub fn display_path(&self) -> (r: &String)
        ensures
            *r == (match *self {
                LocalOrRemotePath::Local(path) => path,
                LocalOrRemotePath::Remote(remote) => remote.path,
            }),
    {
        match self {
            LocalOrRemotePath::Local(path) => path,
            LocalOrRemotePath::Remote(remote) => &remote.path,
        }
    }
}

fn is_on_host(reference: &SkillReference, origin: &SkillPathOrigin) -> (r: bool)
    ensures
        r == on_host(reference@, *origin),
{
    match origin {
        SkillPathOrigin::Local => match reference {
            SkillReference::Path(LocalOrRemotePath::Local(_)) => true,
            SkillReference::BundledSkillId(_) => true,
            SkillReference::Path(LocalOrRemotePath::Remote(_)) => false,
        },
        SkillPathOrigin::Remote { host_id } => match reference {
            SkillReference::Path(LocalOrRemotePath::Remote(remote)) => remote.host_id.name
                == host_id.name,
            SkillReference::Path(LocalOrRemotePath::Local(_)) => false,
            SkillReference::BundledSkillId(_) => false,
        },
        SkillPathOrigin::RestoredDisplayOnly | SkillPathOrigin::Unavailable => false,
    }
}

fn is_meant(skill: &SkillDescriptor, name: &String, origin: &SkillPathOrigin) -> (r: bool)
    ensures
        r == meant(*skill, name@, *origin),
{
    if !is_on_host(&skill.reference, origin) {
        return false;
    }
    if skill.name == *name {
        return true;
    }
    match &skill.reference {
        SkillReference::Path(path) => *path.display_path() == *name,
        SkillReference::BundledSkillId(id) => {
            let mut full: String = BUNDLED_PREFIX.to_owned();
            full.append(id.as_str());
            full == *name
        },
    }
}

fn same_reference(a: &SkillReference, b: &SkillReference) -> (r: bool)
    ensures
        r == (a@ == b@),
{
    match (a, b) {
        (
            SkillReference::Path(LocalOrRemotePath::Local(x)),
            SkillReference::Path(LocalOrRemotePath::Local(y)),
        ) => *x == *y,
        (
            SkillReference::Path(LocalOrRemotePath::Remote(x)),
            SkillReference::Path(LocalOrRemotePath::Remote(y)),
        ) => x.host_id.name == y.host_id.name && x.path == y.path,
        (SkillReference::BundledSkillId(x), SkillReference::BundledSkillId(y)) => *x == *y,
        _ => false,
    }
}

/// What a lookup returns and leaves behind.
pub open spec fn looked_up(
    before: ReadSkill,
    after: ReadSkill,
    skills: Seq<SkillDescriptor>,
    origin: SkillPathOrigin,
    r: Result<(), SkillResolutionError>,
) -> bool {
    match r {
        Ok(_) => {
            &&& available(skills, before.name@, origin)
            &&& !ambiguous(skills, before.name@, origin)
            &&& after.name == before.name
            &&& forall|k: int| #[trigger]
                first_meant(skills, before.name@, origin, k) ==> names(
                    after.skill_reference,
                    skills[k].reference@,
                )
        },
        Err(SkillResolutionError::NotAvailable) => {
            &&& !available(skills, before.name@, origin)
            &&& after == before
        },
        Err(SkillResolutionError::Ambiguous) => {
            &&& ambiguous(skills, before.name@, origin)
            &&& after == before
        },
    }
}

/// Puts the full path or the id of the skill that is meant into `read_skill`. Only skills
/// that were listed count, and only those of the session's host.
pub fn resolve_reference(
    read_skill: &mut ReadSkill,
    skills: &Vec<SkillDescriptor>,
    path_origin: &SkillPathOrigin,
) -> (r: Result<(), SkillResolutionError>)
    ensures
        looked_up(*old(read_skill), *final(read_skill), skills@, *path_origin, r),
        ({
            let name = old(read_skill).name@;
            match r {
                Ok(_) => {
                    &&& available(skills@, name, *path_origin)
                    &&& !ambiguous(skills@, name, *path_origin)
                    &&& final(read_skill).name == old(read_skill).name
                    &&& forall|k: int| #[trigger]
                        first_meant(skills@, name, *path_origin, k) ==> names(
                            final(read_skill).skill_reference,
                            skills@[k].reference@,
                        )
                },
                Err(SkillResolutionError::NotAvailable) => {
                    &&& !available(skills@, name, *path_origin)
                    &&& *final(read_skill) == *old(read_skill)
                },
                Err(SkillResolutionError::Ambiguous) => {
                    &&& ambiguous(skills@, name, *path_origin)
                    &&& *final(read_skill) == *old(read_skill)
                },
            }
        }),
{
    let ghost name = read_skill.name@;
    let mut selected: Option<usize> = None;
    let mut i: usize = 0;
    while i < skills.len()
        invariant
            i <= skills.len(),
            *read_skill == *old(read_skill),
            name == read_skill.name@,
            match selected {
                None => forall|j: int|
                    0 <= j < i ==> !meant(#[trigger] skills@[j], name, *path_origin),
                Some(s) => s < i && first_meant(skills@, name, *path_origin, s as int) && forall|
                    j: int,
                |
                    0 <= j < i && meant(#[trigger] skills@[j], name, *path_origin)
                        ==> skills@[j].reference@ == skills@[s as int].reference@,
            },
        decreases skills.len() - i,
    {
        if is_meant(&skills[i], &read_skill.name, path_origin) {
            match selected {
                None => {
                    selected = Some(i);
                },
                Some(s) => {
                    if !same_reference(&skills[i].reference, &skills[s].reference) {
                        assert(meant(skills@[s as int], name, *path_origin));
                        assert(ambiguous(skills@, name, *path_origin));
                        return Err(SkillResolutionError::Ambiguous);
                    }
                },
            }
        }
        i += 1;
    }
    match selected {
        None => Err(SkillResolutionError::NotAvailable),
        Some(s) => {
            proof {
                assert(meant(skills@[s as int], name, *path_origin));
                assert forall|k: int| #[trigger]
                    first_meant(skills@, name, *path_origin, k) implies k == s by {
                    if k < s {
                        assert(!meant(skills@[k], name, *path_origin));
                    } else if k > s {
                        assert(!meant(skills@[s as int], name, *path_origin));
                    }
                }
            }
            read_skill.skill_reference = Some(
                match &skills[s].reference {
                    SkillReference::Path(path) => ActionSkillReference::SkillPath(
                        path.display_path().clone(),
                    ),
                    SkillReference::BundledSkillId(id) => ActionSkillReference::BundledSkillId(
                        id.clone(),
                    ),
                },
            );
            Ok(())
        },
    }
}

#[derive(Debug, Clone, PartialEq, Eq)]
pub struct FileContent {
    pub file_path: String,
    pub content: String,
}

/// What reading a skill brought. Nothing stands for a call that was cancelled.
#[derive(Debug, Clone, PartialEq, Eq)]
pub enum ReadSkillResult {
    Success { content: Option<FileContent> },
    Error { message: String },
}

/// The result of a tool call.
#[derive(Debug, Clone, PartialEq, Eq)]
pub enum ToolResult {
    ReadSkill(Option<ReadSkillResult>),
    Other,
}

/// What the model is told about the result of reading a skill, as JSON.
pub open spec fn skill_json(result: ToolResult) -> Option<Seq<char>> {
    match result {
        ToolResult::ReadSkill(Some(ReadSkillResult::Success { content })) => {
            let (path, body) = match content {
                Some(file) => (file.file_path@, file.content@),
                None => (Seq::empty(), Seq::empty()),
            };
            Some(
                json::object_text(
                    seq![
                        ("content"@, json::quoted(body)),
                        ("path"@, json::quoted(path)),
                        ("status"@, json::quoted("ok"@)),
                    ],
                ),
            )
        },
        ToolResult::ReadSkill(Some(ReadSkillResult::Error { message })) => Some(
            json::object_text(
                seq![
                    ("message"@, json::quoted(message@)),
                    ("status"@, json::quoted("error"@)),
                ],
            ),
        ),
        ToolResult::ReadSkill(None) => Some(
            json::object_text(seq![("status"@, json::quoted("cancelled"@))]),
        ),
        ToolResult::Other => None,
    }
}

fn string_field(name: &str, value: &str) -> (r: JsonField)
    ensures
        r@ == (name@, json::quoted(value@)),
{
    JsonField { name: name.to_owned(), text: quote(value) }
}

/// What the model is told about the result of reading a skill, as JSON. Other results are
/// not told here.
pub fn result_to_json(result: &ToolResult) -> (r: Option<String>)
    ensures
        match r {
            Some(s) => skill_json(*result) == Some(s@),
            None => skill_json(*result) is None,
        },
{
    let outcome: &Option<ReadSkillResult> = match result {
        ToolResult::ReadSkill(outcome) => outcome,
        ToolResult::Other => {
            return None;
        },
    };
    let mut fields: Vec<JsonField> = Vec::new();
    match outcome {
        Some(ReadSkillResult::Success { content }) => {
            match content {
                Some(file) => {
                    fields.push(string_field("content", file.content.as_str()));
                    fields.push(string_field("path", file.file_path.as_str()));
                },
                None => {
                    proof {
                        reveal_strlit("");
                        assert(""@ =~= Seq::<char>::empty());
                    }
                    fields.push(string_field("content", ""));
                    fields.push(string_field("path", ""));
                },
            }
            fields.push(string_field("status", "ok"));
        },
        Some(ReadSkillResult::Error { message }) => {
            fields.push(string_field("message", message.as_str()));
            fields.push(string_field("status", "error"));
        },
        None => {
            fields.push(string_field("status", "cancelled"));
        },
    }
    let printed: String = print_object(&fields);
    assert(Some(printed@) == skill_json(*result)) by {
        match *outcome {
            Some(ReadSkillResult::Success { content }) => {
                let (path, body) = match content {
                    Some(file) => (file.file_path@, file.content@),
                    None => (Seq::empty(), Seq::empty()),
                };
                assert(json::fields_view(fields@) =~= seq![
                    ("content"@, json::quoted(body)),
                    ("path"@, json::quoted(path)),
                    ("status"@, json::quoted("ok"@)),
                ]);
            },
            Some(ReadSkillResult::Error { message }) => {
                assert(json::fields_view(fields@) =~= seq![
                    ("message"@, json::quoted(message@)),
                    ("status"@, json::quoted("error"@)),
                ]);
            },
            None => {
                assert(json::fields_view(fields@) =~= seq![
                    ("status"@, json::quoted("cancelled"@)),
                ]);
            },
        }
    }
    Some(printed)
}

/// How a session runs.
#[derive(Debug, Clone, PartialEq, Eq)]
pub enum SessionType {
    Local,
    WarpifiedRemote { host_id: Option<HostId> },
}

#[derive(Debug, Clone, PartialEq, Eq)]
pub struct SessionContext {
    pub session_type: Option<SessionType>,
    pub current_working_directory: Option<String>,
    /// An SSH connection that the program does not see into.
    pub is_legacy_ssh: bool,
}

impl SessionContext {
    /// Where the skills of the session come from.
    pub open spec fn spec_origin(self) -> SkillPathOrigin {
        match self.session_type {
            Some(SessionType::WarpifiedRemote { host_id: Some(host_id) }) => {
                SkillPathOrigin::Remote { host_id }
            },
            Some(SessionType::WarpifiedRemote { host_id: None }) => SkillPathOrigin::Unavailable,
            _ => if self.is_legacy_ssh {
                SkillPathOrigin::Unavailable
            } else {
                SkillPathOrigin::Local
            },
        }
    }

    /// Where the skills of the session come from: its remote host as soon as that is known,
    /// this machine only where nothing speaks of SSH.
    pub fn skill_path_origin(&self) -> (r: SkillPathOrigin)
        ensures
            r == self.spec_origin(),
            r == (match self.session_type {
                Some(SessionType::WarpifiedRemote { host_id: Some(host_id) }) => {
                    SkillPathOrigin::Remote { host_id }
                },
                Some(SessionType::WarpifiedRemote { host_id: None }) => {
                    SkillPathOrigin::Unavailable
                },
                _ => if self.is_legacy_ssh {
                    SkillPathOrigin::Unavailable
                } else {
                    SkillPathOrigin::Local
                },
            }),
    {
        match &self.session_type {
            Some(SessionType::WarpifiedRemote { host_id: Some(host_id) }) => {
                SkillPathOrigin::Remote { host_id: host_id.clone() }
            },
            Some(SessionType::WarpifiedRemote { host_id: None }) => SkillPathOrigin::Unavailable,
            Some(SessionType::Local) | None => if self.is_legacy_ssh {
                SkillPathOrigin::Unavailable
            } else {
                SkillPathOrigin::Local
            },
        }
    }
}

/// A skill of another host is never meant, whatever its name is.
pub proof fn law_hosts_are_never_mixed(
    skill: SkillDescriptor,
    name: Seq<char>,
    origin: SkillPathOrigin,
)
    requires
        meant(skill, name, origin),
    ensures
        match skill.reference@ {
            ReferenceView::Remote(host, _) => origin is Remote && host == origin->host_id.name@,
            ReferenceView::Local(_) => origin is Local,
            ReferenceView::Bundled(_) => origin is Local,
        },
{
}

/// Without a host that is known for sure, no skill is available.
pub proof fn law_unknown_host_has_no_skills(skills: Seq<SkillDescriptor>, name: Seq<char>)
    ensures
        !available(skills, name, SkillPathOrigin::Unavailable),
        !available(skills, name, SkillPathOrigin::RestoredDisplayOnly),
{
}

/// A name that several skills share can be replaced by the full path of one of them: where
/// no other skill of this host has the path as its name or its path, that one is found.
pub proof fn law_full_path_tells_skills_apart(
    skills: Seq<SkillDescriptor>,
    k: int,
    origin: SkillPathOrigin,
)
    requires
        0 <= k < skills.len(),
        on_host(skills[k].reference@, origin),
        forall|j: int|
            0 <= j < skills.len() && (#[trigger] skills[j]).reference@ != skills[k].reference@
                ==> skills[j].name@ != address(skills[k].reference@) && address(
                skills[j].reference@,
            ) != address(skills[k].reference@),
    ensures
        available(skills, address(skills[k].reference@), origin),
        !ambiguous(skills, address(skills[k].reference@), origin),
{
    assert(meant(skills[k], address(skills[k].reference@), origin));
}

/// A skill is meant by its name, and by its full path or by its id behind `@warp-skill:`,
/// where the session runs on its host; by anything else, or anywhere else, it is not meant.
pub proof fn law_how_a_skill_is_named(
    skill: SkillDescriptor,
    name: Seq<char>,
    origin: SkillPathOrigin,
)
    ensures
        match skill.reference {
            SkillReference::Path(LocalOrRemotePath::Local(path)) => {
                &&& meant(skill, name, SkillPathOrigin::Local) <==> name == skill.name@ || name
                    == path@
                &&& !(origin is Local) ==> !meant(skill, name, origin)
            },
            SkillReference::Path(LocalOrRemotePath::Remote(remote)) => {
                &&& meant(
                    skill,
                    name,
                    SkillPathOrigin::Remote { host_id: remote.host_id },
                ) <==> name == skill.name@ || name == remote.path@
                &&& (origin matches SkillPathOrigin::Remote { host_id } ==> host_id.name@
                    != remote.host_id.name@) ==> !meant(skill, name, origin)
            },
            SkillReference::BundledSkillId(id) => {
                &&& meant(skill, name, SkillPathOrigin::Local) <==> name == skill.name@ || name
                    == "@warp-skill:"@ + id@
                &&& !(origin is Local) ==> !meant(skill, name, origin)
            },
        },
{
}

/// The full path of a skill, or its id behind `@warp-skill:`, always means that skill on its
/// own host.
pub proof fn law_full_path_means_its_skill(skill: SkillDescriptor)
    ensures
        match skill.reference@ {
            ReferenceView::Local(path) => meant(skill, path, SkillPathOrigin::Local),
            ReferenceView::Remote(host, path) => forall|origin: SkillPathOrigin|
                origin is Remote && origin->host_id.name@ == host ==> #[trigger] meant(
                    skill,
                    path,
                    origin,
                ),
            ReferenceView::Bundled(id) => meant(
                skill,
                "@warp-skill:"@ + id,
                SkillPathOrigin::Local,
            ),
        },
{
}

/// The outcome of a lookup: nothing is found exactly where no listed skill is meant, and the
/// name is ambiguous exactly where two listed skills with different references are.
pub proof fn law_when_a_name_is_found(
    skills: Seq<SkillDescriptor>,
    skill: SkillDescriptor,
    name: Seq<char>,
    origin: SkillPathOrigin,
)
    ensures
        !available(Seq::empty(), name, origin),
        !ambiguous(Seq::empty(), name, origin),
        available(skills.push(skill), name, origin) <==> available(skills, name, origin) || meant(
            skill,
            name,
            origin,
        ),
        ambiguous(skills.push(skill), name, origin) <==> ambiguous(skills, name, origin) || (meant(
            skill,
            name,
            origin,
        ) && exists|k: int|
            0 <= k < skills.len() && meant(#[trigger] skills[k], name, origin)
                && skills[k].reference@ != skill.reference@),
{
    let all = skills.push(skill);
    let n = skills.len() as int;
    assert(all[n] == skill);
    if available(skills, name, origin) {
        let k = choose|k: int| 0 <= k < skills.len() && meant(#[trigger] skills[k], name, origin);
        assert(meant(all[k], name, origin));
    }
    if meant(skill, name, origin) {
        assert(meant(all[n], name, origin));
    }
    if available(all, name, origin) {
        let k = choose|k: int| 0 <= k < all.len() && meant(#[trigger] all[k], name, origin);
        if k < n {
            assert(meant(skills[k], name, origin));
        }
    }
    if ambiguous(skills, name, origin) {
        let (i, j) = choose|i: int, j: int|
            0 <= i < j < skills.len() && meant(#[trigger] skills[i], name, origin) && meant(
                #[trigger] skills[j],
                name,
                origin,
            ) && skills[i].reference@ != skills[j].reference@;
        assert(meant(all[i], name, origin) && meant(all[j], name, origin));
    }
    if meant(skill, name, origin) && exists|k: int|
        0 <= k < skills.len() && meant(#[trigger] skills[k], name, origin) && skills[k].reference@
            != skill.reference@ {
        let k = choose|k: int|
            0 <= k < skills.len() && meant(#[trigger] skills[k], name, origin)
                && skills[k].reference@ != skill.reference@;
        assert(meant(all[k], name, origin) && meant(all[n], name, origin));
    }
    if ambiguous(all, name, origin) {
        let (i, j) = choose|i: int, j: int|
            0 <= i < j < all.len() && meant(#[trigger] all[i], name, origin) && meant(
                #[trigger] all[j],
                name,
                origin,
            ) && all[i].reference@ != all[j].reference@;
        assert(meant(skills[i], name, origin));
        if j < n {
            assert(meant(skills[j], name, origin));
        }
    }
}

/// An action names a skill by its path, whichever host it is on, or by its bare id.
pub proof fn law_how_an_action_names_a_skill(action: ActionSkillReference, reference: SkillReference)
    ensures
        names(Some(action), reference@) <==> match reference {
            SkillReference::Path(LocalOrRemotePath::Local(path)) => action matches ActionSkillReference::SkillPath(
                p,
            ) && p@ == path@,
            SkillReference::Path(LocalOrRemotePath::Remote(remote)) => action matches ActionSkillReference::SkillPath(
                p,
            ) && p@ == remote.path@,
            SkillReference::BundledSkillId(id) => action matches ActionSkillReference::BundledSkillId(
                i,
            ) && i@ == id@,
        },
        !names(None, reference@),
{
}

/// References are the same exactly where they name the same path on the same host, or the same
/// id.
pub proof fn law_references_tell_hosts_and_paths(a: SkillReference, b: SkillReference)
    ensures
        a@ == b@ <==> match (a, b) {
            (
                SkillReference::Path(LocalOrRemotePath::Local(x)),
                SkillReference::Path(LocalOrRemotePath::Local(y)),
            ) => x@ == y@,
            (
                SkillReference::Path(LocalOrRemotePath::Remote(x)),
                SkillReference::Path(LocalOrRemotePath::Remote(y)),
            ) => x.host_id.name@ == y.host_id.name@ && x.path@ == y.path@,
            (SkillReference::BundledSkillId(x), SkillReference::BundledSkillId(y)) => x@ == y@,
            _ => false,
        },
{
}

/// A session on a remote host has the skills of that host as soon as the host is known and no
/// skills before; no SSH session has the skills of this machine; every other session has them.
pub proof fn law_where_skills_come_from(session: SessionContext)
    ensures
        match session.session_type {
            Some(SessionType::WarpifiedRemote { host_id }) => match host_id {
                Some(host) => session.spec_origin() == (SkillPathOrigin::Remote {
                    host_id: host,
                }),
                None => session.spec_origin() is Unavailable,
            },
            _ => {
                &&& session.is_legacy_ssh ==> session.spec_origin() is Unavailable
                &&& !session.is_legacy_ssh ==> session.spec_origin() is Local
            },
        },
{
}

/// What the model is told about a skill that was read: an object with the content, the path and
/// the status, or with the message and the status, and nothing about other results.
pub proof fn law_what_the_model_is_told(result: ToolResult)
    ensures
        match result {
            ToolResult::ReadSkill(Some(ReadSkillResult::Success { content: Some(file) })) => {
                skill_json(result) == Some(
                    "{\"content\":"@ + json::quoted(file.content@) + ",\"path\":"@ + json::quoted(
                        file.file_path@,
                    ) + ",\"status\":\"ok\"}"@,
                )
            },
            ToolResult::ReadSkill(Some(ReadSkillResult::Success { content: None })) => {
                skill_json(result) == Some(
                    "{\"content\":\"\",\"path\":\"\",\"status\":\"ok\"}"@,
                )
            },
            ToolResult::ReadSkill(Some(ReadSkillResult::Error { message })) => skill_json(result)
                == Some(
                "{\"message\":"@ + json::quoted(message@) + ",\"status\":\"error\"}"@,
            ),
            ToolResult::ReadSkill(None) => skill_json(result) == Some(
                "{\"status\":\"cancelled\"}"@,
            ),
            ToolResult::Other => skill_json(result) is None,
        },
{
    reveal_strlit("content");
    reveal_strlit("path");
    reveal_strlit("status");
    reveal_strlit("message");
    reveal_strlit("ok");
    reveal_strlit("error");
    reveal_strlit("cancelled");
    reveal_strlit("{\"content\":");
    reveal_strlit(",\"path\":");
    reveal_strlit(",\"status\":\"ok\"}");
    reveal_strlit("{\"content\":\"\",\"path\":\"\",\"status\":\"ok\"}");
    reveal_strlit("{\"message\":");
    reveal_strlit(",\"status\":\"error\"}");
    reveal_strlit("{\"status\":\"cancelled\"}");
    lemma_plain_quoted("content"@);
    lemma_plain_quoted("path"@);
    lemma_plain_quoted("status"@);
    lemma_plain_quoted("message"@);
    lemma_plain_quoted("ok"@);
    lemma_plain_quoted("error"@);
    lemma_plain_quoted("cancelled"@);
    lemma_plain_quoted(Seq::empty());
    match result {
        ToolResult::ReadSkill(Some(ReadSkillResult::Success { content })) => {
            let (path, body) = match content {
                Some(file) => (file.file_path@, file.content@),
                None => (Seq::empty(), Seq::empty()),
            };
            let a = ("content"@, json::quoted(body));
            let b = ("path"@, json::quoted(path));
            let c = ("status"@, json::quoted("ok"@));
            lemma_three_members(a, b, c);
            match content {
                Some(file) => {
                    assert(skill_json(result)->0 =~= "{\"content\":"@ + json::quoted(file.content@)
                        + ",\"path\":"@ + json::quoted(file.file_path@)
                        + ",\"status\":\"ok\"}"@);
                },
                None => {
                    assert(skill_json(result)->0
                        =~= "{\"content\":\"\",\"path\":\"\",\"status\":\"ok\"}"@);
                },
            }
        },
        ToolResult::ReadSkill(Some(ReadSkillResult::Error { message })) => {
            let a = ("message"@, json::quoted(message@));
            let b = ("status"@, json::quoted("error"@));
            lemma_two_members(a, b);
            assert(skill_json(result)->0 =~= "{\"message\":"@ + json::quoted(message@)
                + ",\"status\":\"error\"}"@);
        },
        ToolResult::ReadSkill(None) => {
            assert(skill_json(result)->0 =~= "{\"status\":\"cancelled\"}"@);
        },
        ToolResult::Other => {},
    }
}

proof fn lemma_two_members(a: json::FieldView, b: json::FieldView)
    ensures
        json::members(seq![a, b]) == json::member(a) + seq![','] + json::member(b),
{
    reveal_with_fuel(json::members, 3);
    assert(seq![a, b].drop_last() =~= seq![a]);
}

proof fn lemma_three_members(a: json::FieldView, b: json::FieldView, c: json::FieldView)
    ensures
        json::members(seq![a, b, c]) == json::member(a) + seq![','] + json::member(b) + seq![',']
            + json::member(c),
{
    reveal_with_fuel(json::members, 4);
    assert(seq![a, b, c].drop_last() =~= seq![a, b]);
    assert(seq![a, b].drop_last() =~= seq![a]);
}

/// Lower-case letters stand in a JSON string as they are.
proof fn lemma_plain_quoted(s: Seq<char>)
    requires
        forall|i: int| 0 <= i < s.len() ==> 'a' <= #[trigger] s[i] <= 'z',
    ensures
        json::quoted(s) == seq!['"'] + s + seq!['"'],
{
    lemma_plain_escape(s);
}

proof fn lemma_plain_escape(s: Seq<char>)
    requires
        forall|i: int| 0 <= i < s.len() ==> 'a' <= #[trigger] s[i] <= 'z',
    ensures
        json::escape(s) == s,
    decreases s.len(),
{
    if s.len() > 0 {
        let rest = s.drop_last();
        assert forall|i: int| 0 <= i < rest.len() implies 'a' <= #[trigger] rest[i] <= 'z' by {
            assert(rest[i] == s[i]);
        }
        lemma_plain_escape(rest);
        assert('a' <= s[s.len() - 1] <= 'z');
        assert(json::escape(s) =~= s);
    } else {
        assert(json::escape(s) =~= s);
    }
}

proof fn lemma_first_meant(
    skills: Seq<SkillDescriptor>,
    name: Seq<char>,
    origin: SkillPathOrigin,
    k: int,
) -> (j: int)
    requires
        0 <= k < skills.len(),
        meant(skills[k], name, origin),
    ensures
        j <= k,
        first_meant(skills, name, origin, j),
    decreases k,
{
    if forall|j: int| 0 <= j < k ==> !meant(#[trigger] skills[j], name, origin) {
        k
    } else {
        let j = choose|j: int| 0 <= j < k && meant(#[trigger] skills[j], name, origin);
        lemma_first_meant(skills, name, origin, j)
    }
}

/// Where all listed skills that are meant have one reference, the lookup finds it, and the
/// action names each of them; where two have different ones, or none is meant, it fails and
/// leaves the call as it was.
pub proof fn law_what_a_lookup_finds(
    before: ReadSkill,
    after: ReadSkill,
    skills: Seq<SkillDescriptor>,
    origin: SkillPathOrigin,
    r: Result<(), SkillResolutionError>,
    i: int,
    j: int,
)
    requires
        looked_up(before, after, skills, origin, r),
        0 <= i < skills.len(),
        0 <= j < skills.len(),
    ensures
        after.name == before.name,
        r is Err ==> after == before,
        meant(skills[i], before.name@, origin) ==> r != Err::<(), SkillResolutionError>(
            SkillResolutionError::NotAvailable,
        ),
        meant(skills[i], before.name@, origin) && r is Ok ==> names(
            after.skill_reference,
            skills[i].reference@,
        ),
        meant(skills[i], before.name@, origin) && meant(skills[j], before.name@, origin)
            && skills[i].reference@ != skills[j].reference@ ==> r == Err::<
            (),
            SkillResolutionError,
        >(SkillResolutionError::Ambiguous),
        (forall|k: int|
            0 <= k < skills.len() ==> !meant(#[trigger] skills[k], before.name@, origin)) ==> r
            == Err::<(), SkillResolutionError>(SkillResolutionError::NotAvailable),
        meant(skills[i], before.name@, origin) && (forall|k: int|
            0 <= k < skills.len() && meant(#[trigger] skills[k], before.name@, origin)
                ==> skills[k].reference@ == skills[i].reference@) ==> r is Ok,
{
    let name = before.name@;
    if meant(skills[i], name, origin) {
        let k = lemma_first_meant(skills, name, origin, i);
        if skills[k].reference@ != skills[i].reference@ {
            assert(meant(skills[k], name, origin));
            assert(ambiguous(skills, name, origin));
        }
        if meant(skills[j], name, origin) && skills[i].reference@ != skills[j].reference@ {
            if i < j {
                assert(ambiguous(skills, name, origin));
            } else {
                assert(ambiguous(skills, name, origin));
            }
        }
    }
    if ambiguous(skills, name, origin) {
        let (a, b) = choose|a: int, b: int|
            0 <= a < b < skills.len() && meant(#[trigger] skills[a], name, origin) && meant(
                #[trigger] skills[b],
                name,
                origin,
            ) && skills[a].reference@ != skills[b].reference@;
        assert(meant(skills[a], name, origin) && meant(skills[b], name, origin));
    }
}

} // verus!
