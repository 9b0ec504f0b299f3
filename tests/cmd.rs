use rfz::{Action, ArgProvider, CmdExec, Error};

struct DummyArgs {
    jobs: Option<usize>,
    dir: Option<String>,
    verbosity: usize,
    path: Option<String>,
    rsync_cmd: Option<String>,
    rsync_remote: Option<String>,
    types: Option<Vec<&'static str>>,
}

impl ArgProvider for DummyArgs {
    fn jobs(&self) -> usize {
        self.jobs.unwrap()
    }
    fn dir(&self) -> String {
        self.dir.as_ref().unwrap().to_owned()
    }
    fn verbosity(&self) -> usize {
        self.verbosity.to_owned()
    }
    fn path(&self) -> String {
        self.path.as_ref().unwrap().to_owned()
    }
    fn rsync_cmd(&self) -> &str {
        self.rsync_cmd.as_ref().unwrap()
    }
    fn rsync_remote(&self) -> &str {
        self.rsync_remote.as_ref().unwrap()
    }
    fn types(&self) -> Option<Vec<&str>> {
        self.types.to_owned()
    }
}

fn resource_path(name: &str) -> String {
    format!("/srv/rfz/tests/resources/{}", name)
}

#[test]
fn test_index_cmd() -> Result<(), Error> {
    let args = DummyArgs {
        jobs: Some(2),
        dir: Some(resource_path("")),
        verbosity: 0,
        path: None,
        rsync_cmd: None,
        rsync_remote: None,
        types: None,
    };
    let exec = CmdExec::init("index", &args)?;
    match exec.run()? {
        Action::Index { dir, types, jobs } => {
            assert_eq!(dir, resource_path(""));
            assert_eq!(types, None);
            assert_eq!(jobs, 2);
        }
        other => panic!("unexpected {:?}", other),
    }
    Ok(())
}

#[test]
fn test_summary_cmd() -> Result<(), Error> {
    let args = DummyArgs {
        jobs: None,
        dir: None,
        verbosity: 0,
        path: Some(resource_path("rfc6468.html")),
        rsync_cmd: None,
        rsync_remote: None,
        types: None,
    };
    let exec = CmdExec::init("summary", &args)?;
    match exec.run()? {
        Action::Summary { doc } => assert_eq!(doc.id(), "rfc6468"),
        other => panic!("unexpected {:?}", other),
    }
    Ok(())
}

#[test]
fn test_sync_cmd() -> Result<(), Error> {
    let args = DummyArgs {
        jobs: None,
        dir: Some(resource_path("")),
        verbosity: 2,
        path: None,
        rsync_cmd: Some(String::from("/bin/true")),
        rsync_remote: Some(String::from("rsync.example.com::dummy")),
        types: None,
    };
    let exec = CmdExec::init("sync", &args)?;
    match exec.run()? {
        Action::Sync { program, args } => {
            assert_eq!(program, "/bin/true");
            assert_eq!(
                args,
                vec![
                    String::from("-vv"),
                    String::from("--archive"),
                    String::from("--compress"),
                    String::from("--include=*.html"),
                    String::from("--exclude=**"),
                    String::from("--prune-empty-dirs"),
                    String::from("rsync.example.com::dummy"),
                    resource_path(""),
                ]
            );
        }
        other => panic!("unexpected {:?}", other),
    }
    Ok(())
}

#[test]
fn test_not_implemented() {
    let args = DummyArgs {
        jobs: None,
        dir: None,
        verbosity: 0,
        path: None,
        rsync_cmd: None,
        rsync_remote: None,
        types: None,
    };
    match CmdExec::init("invalid", &args) {
        Err(Error::ImplementationNotFound(_)) => (),
        _ => panic!("Expected ImplementationNotFound error"),
    }
}

#[test]
fn test_document_not_found() {
    let args = DummyArgs {
        jobs: None,
        dir: None,
        verbosity: 0,
        path: Some(resource_path("not-found")),
        rsync_cmd: None,
        rsync_remote: None,
        types: None,
    };
    let exec = CmdExec::init("summary", &args).unwrap();
    match exec.run() {
        Err(Error::DocumentNotFound(_)) => (),
        _ => panic!("Expected DocumentNotFound error"),
    }
}

#[test]
fn unknown_command_message_names_it() {
    let args = DummyArgs {
        jobs: None,
        dir: None,
        verbosity: 0,
        path: None,
        rsync_cmd: None,
        rsync_remote: None,
        types: None,
    };
    match CmdExec::init("completions", &args) {
        Err(Error::ImplementationNotFound(msg)) => {
            assert_eq!(msg, "Failed to find an implementation for sub-command 'completions'")
        }
        _ => panic!("Expected ImplementationNotFound error"),
    }
}

#[test]
fn quiet_sync_has_no_verbosity_flag() {
    let args = rfz::sync_args(0, "r::m", "/d");
    assert_eq!(args[0], "--archive");
    assert_eq!(args.len(), 7);
    assert_eq!(rfz::sync_args(3, "r", "d")[0], "-vvv");
}

#[test]
fn index_with_types_passes_them_on() {
    let args = DummyArgs {
        jobs: Some(1),
        dir: Some(String::from("/m")),
        verbosity: 0,
        path: None,
        rsync_cmd: None,
        rsync_remote: None,
        types: Some(vec!["rfc", "bcp"]),
    };
    match CmdExec::init("index", &args).unwrap().run().unwrap() {
        Action::Index { types, .. } => {
            assert_eq!(types, Some(vec![String::from("rfc"), String::from("bcp")]))
        }
        other => panic!("unexpected {:?}", other),
    }
}

#[test]
fn index_action_carries_the_arguments() {
    match rfz::index_action(String::from("/m"), Some(vec!["draft"]), 3) {
        Action::Index { dir, types, jobs } => {
            assert_eq!(dir, "/m");
            assert_eq!(types, Some(vec![String::from("draft")]));
            assert_eq!(jobs, 3);
        }
        other => panic!("unexpected {:?}", other),
    }
}

#[test]
fn sync_action_runs_the_program_with_mirror_arguments() {
    match rfz::sync_action("rsync", 1, "r::m", "/d") {
        Action::Sync { program, args } => {
            assert_eq!(program, "rsync");
            assert_eq!(args[0], "-v");
            assert_eq!(args[6], "r::m");
            assert_eq!(args[7], "/d");
        }
        other => panic!("unexpected {:?}", other),
    }
}

#[test]
fn summary_of_a_path_without_document_names_the_path() {
    match rfz::summary_action(String::from("/m/notes.txt")) {
        Err(Error::DocumentNotFound(msg)) => {
            assert_eq!(msg, "Failed to create a valid document from path '/m/notes.txt'")
        }
        other => panic!("unexpected {:?}", other),
    }
}
