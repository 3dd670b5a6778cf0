use byop_agent::skill::{
    resolve_reference, result_to_json, ActionSkillReference, FileContent, HostId,
    LocalOrRemotePath, ReadSkill, ReadSkillResult, RemotePath, SessionContext, SessionType,
    SkillDescriptor, SkillPathOrigin, SkillReference, SkillResolutionError, ToolResult,
};

fn host(name: &str) -> HostId {
    HostId { name: name.to_owned() }
}

fn local(name: &str, path: &str) -> SkillDescriptor {
    SkillDescriptor {
        name: name.to_owned(),
        description: String::new(),
        reference: SkillReference::Path(LocalOrRemotePath::Local(path.to_owned())),
    }
}

fn remote(name: &str, host_name: &str, path: &str) -> SkillDescriptor {
    SkillDescriptor {
        name: name.to_owned(),
        description: String::new(),
        reference: SkillReference::Path(LocalOrRemotePath::Remote(RemotePath {
            host_id: host(host_name),
            path: path.to_owned(),
        })),
    }
}

fn bundled(name: &str, id: &str) -> SkillDescriptor {
    SkillDescriptor {
        name: name.to_owned(),
        description: String::new(),
        reference: SkillReference::BundledSkillId(id.to_owned()),
    }
}

fn resolve(
    name: &str,
    skills: &Vec<SkillDescriptor>,
    origin: &SkillPathOrigin,
) -> Result<Option<ActionSkillReference>, SkillResolutionError> {
    let mut read = ReadSkill { skill_reference: None, name: name.to_owned() };
    let result = resolve_reference(&mut read, skills, origin);
    assert_eq!(read.name, name);
    if result.is_err() {
        assert_eq!(read.skill_reference, None);
    }
    result.map(|_| read.skill_reference)
}

fn path(p: &str) -> Option<ActionSkillReference> {
    Some(ActionSkillReference::SkillPath(p.to_owned()))
}

fn session(session_type: Option<SessionType>, is_legacy_ssh: bool) -> SessionContext {
    SessionContext { session_type, current_working_directory: None, is_legacy_ssh }
}

#[test]
fn skill_origin_keeps_the_connected_ssh_host_without_cwd() {
    let session = session(
        Some(SessionType::WarpifiedRemote { host_id: Some(host("remote-host")) }),
        true,
    );

    assert_eq!(
        session.skill_path_origin(),
        SkillPathOrigin::Remote { host_id: host("remote-host") }
    );
}

#[test]
fn skill_origin_is_unavailable_while_ssh_host_is_unknown() {
    let session = SessionContext {
        current_working_directory: Some("/repo".to_owned()),
        ..session(Some(SessionType::WarpifiedRemote { host_id: None }), false)
    };

    assert_eq!(session.skill_path_origin(), SkillPathOrigin::Unavailable);
}

#[test]
fn skill_origin_does_not_treat_legacy_ssh_as_local() {
    let session = session(Some(SessionType::Local), true);

    assert_eq!(session.skill_path_origin(), SkillPathOrigin::Unavailable);
}

#[test]
fn skill_origin_is_unavailable_for_legacy_ssh_without_session_type() {
    let session = session(None, true);

    assert_eq!(session.skill_path_origin(), SkillPathOrigin::Unavailable);
}

#[test]
fn skill_origin_keeps_local_skills_without_cwd() {
    let session = session(Some(SessionType::Local), false);

    assert_eq!(session.skill_path_origin(), SkillPathOrigin::Local);
}

#[test]
fn names_are_looked_up_on_the_host_of_the_session() {
    let skills = vec![
        remote("review", "host-a", "/a/SKILL.md"),
        remote("review", "host-b", "/b/SKILL.md"),
        local("review", "/local/SKILL.md"),
    ];
    assert_eq!(resolve("review", &skills, &SkillPathOrigin::Local), Ok(path("/local/SKILL.md")));
    let on_b = SkillPathOrigin::Remote { host_id: host("host-b") };
    assert_eq!(resolve("review", &skills, &on_b), Ok(path("/b/SKILL.md")));
    let on_c = SkillPathOrigin::Remote { host_id: host("host-c") };
    assert_eq!(resolve("review", &skills, &on_c), Err(SkillResolutionError::NotAvailable));
}

#[test]
fn unknown_origins_have_no_skills() {
    let skills = vec![local("review", "/local/SKILL.md"), bundled("plan", "plan")];
    for origin in [SkillPathOrigin::RestoredDisplayOnly, SkillPathOrigin::Unavailable] {
        assert_eq!(resolve("review", &skills, &origin), Err(SkillResolutionError::NotAvailable));
        assert_eq!(resolve("plan", &skills, &origin), Err(SkillResolutionError::NotAvailable));
    }
}

#[test]
fn shared_names_need_the_full_path() {
    let skills = vec![local("review", "/one/SKILL.md"), local("review", "/two/SKILL.md")];
    assert_eq!(
        resolve("review", &skills, &SkillPathOrigin::Local),
        Err(SkillResolutionError::Ambiguous)
    );
    assert_eq!(
        resolve("/two/SKILL.md", &skills, &SkillPathOrigin::Local),
        Ok(path("/two/SKILL.md"))
    );
    let same = vec![local("review", "/one/SKILL.md"), local("review", "/one/SKILL.md")];
    assert_eq!(resolve("review", &same, &SkillPathOrigin::Local), Ok(path("/one/SKILL.md")));
}

#[test]
fn bundled_skills_are_found_by_name_and_by_id() {
    let skills = vec![bundled("plan", "p-1")];
    let id = Ok(Some(ActionSkillReference::BundledSkillId("p-1".to_owned())));
    assert_eq!(resolve("plan", &skills, &SkillPathOrigin::Local), id);
    assert_eq!(resolve("@warp-skill:p-1", &skills, &SkillPathOrigin::Local), id);
    assert_eq!(
        resolve("p-1", &skills, &SkillPathOrigin::Local),
        Err(SkillResolutionError::NotAvailable)
    );
    let remote = SkillPathOrigin::Remote { host_id: host("h") };
    assert_eq!(resolve("plan", &skills, &remote), Err(SkillResolutionError::NotAvailable));
}

#[test]
fn results_are_told_as_json() {
    let file = FileContent { file_path: "/a".to_owned(), content: "say \"hi\"".to_owned() };
    assert_eq!(
        result_to_json(&ToolResult::ReadSkill(Some(ReadSkillResult::Success {
            content: Some(file),
        }))),
        Some(r#"{"content":"say \"hi\"","path":"/a","status":"ok"}"#.to_owned())
    );
    assert_eq!(
        result_to_json(&ToolResult::ReadSkill(Some(ReadSkillResult::Success { content: None }))),
        Some(r#"{"content":"","path":"","status":"ok"}"#.to_owned())
    );
    assert_eq!(
        result_to_json(&ToolResult::ReadSkill(Some(ReadSkillResult::Error {
            message: "gone".to_owned(),
        }))),
        Some(r#"{"message":"gone","status":"error"}"#.to_owned())
    );
    assert_eq!(
        result_to_json(&ToolResult::ReadSkill(None)),
        Some(r#"{"status":"cancelled"}"#.to_owned())
    );
    assert_eq!(result_to_json(&ToolResult::Other), None);
}
