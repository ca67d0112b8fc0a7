use protov::checkout::{cache_remote_source, check_out, fresh_clone_name, CheckoutError, CheckoutOutcome};
use protov::command::{checkout_command, generate, list_dir, stage_after, CheckoutStage, Command};
use protov::config::{RemoteSource, Source};
use protov::path::PathBuf;
use protov::protocol::{Reply, Request, Turn};

fn source(path: &str) -> RemoteSource {
    RemoteSource {
        url: "https://github.com/org/public".to_string(),
        tag: "v1.2.3".to_string(),
        path: path.to_string(),
        name: "public".to_string(),
    }
}

fn words(command: &Command) -> String {
    let mut all = vec![command.program.clone()];
    for arg in &command.args {
        all.push(String::from_utf8(arg.clone()).unwrap());
    }
    all.join(" ")
}

fn place(command: &Command) -> String {
    String::from_utf8(command.dir.bytes.clone()).unwrap()
}

fn is_uuid(text: &str) -> bool {
    let bytes = text.as_bytes();
    bytes.len() == 36
        && bytes.iter().enumerate().all(|(i, b)| match i {
            8 | 13 | 18 | 23 => *b == b'-',
            14 => *b == b'4',
            19 => b"89ab".contains(b),
            _ => b.is_ascii_digit() || (b'a'..=b'f').contains(b),
        })
}

#[test]
fn a_source_without_a_path_is_cloned_whole() {
    let cache = PathBuf::from_text("/c");
    let clone = checkout_command(&CheckoutStage::Clone, &source(""), &cache, "x");
    assert_eq!(
        words(&clone),
        "git clone -n --depth=1 --branch v1.2.3 https://github.com/org/public x"
    );
    assert_eq!(place(&clone), "/c");
    let checkout = checkout_command(&CheckoutStage::Checkout, &source(""), &cache, "x");
    assert_eq!(words(&checkout), "git checkout v1.2.3");
    assert_eq!(place(&checkout), "/c/x");
    assert!(matches!(
        stage_after(&CheckoutStage::Clone, &source("")),
        Some(CheckoutStage::Checkout)
    ));
}

#[test]
fn a_source_with_a_path_is_checked_out_in_part() {
    let cache = PathBuf::from_text("/c");
    let clone = checkout_command(&CheckoutStage::Clone, &source("protos"), &cache, "x");
    assert_eq!(
        words(&clone),
        "git clone -n --depth=1 --filter=blob:none --branch v1.2.3 https://github.com/org/public x"
    );
    let sparse = checkout_command(&CheckoutStage::SparseCheckout, &source("protos"), &cache, "x");
    assert_eq!(words(&sparse), "git sparse-checkout set --no-cone protos");
    assert_eq!(place(&sparse), "/c/x");
    assert!(matches!(
        stage_after(&CheckoutStage::Clone, &source("protos")),
        Some(CheckoutStage::SparseCheckout)
    ));
    assert!(matches!(
        stage_after(&CheckoutStage::SparseCheckout, &source("protos")),
        Some(CheckoutStage::Checkout)
    ));
    assert!(stage_after(&CheckoutStage::Checkout, &source("protos")).is_none());
}

#[test]
fn the_generator_reads_the_vendored_source() {
    let command = generate(
        "support-1",
        &PathBuf::from_text("./go/buf.go.yaml"),
        &PathBuf::from_text("./go"),
    );
    assert_eq!(
        words(&command),
        "buf generate ./vendor/support-1 --template ./go/buf.go.yaml --output ./go"
    );
    assert_eq!(place(&command), ".");
}

#[test]
fn a_directory_is_listed_in_place() {
    let command = list_dir(PathBuf::from_text("/home/ann/protos"));
    assert_eq!(words(&command), "ls");
    assert_eq!(place(&command), "/home/ann/protos");
}

#[test]
fn clones_are_named_by_random_uuids() {
    let one = fresh_clone_name();
    let other = fresh_clone_name();
    assert!(is_uuid(&one), "{}", one);
    assert!(is_uuid(&other), "{}", other);
    assert_ne!(one, other);
}

#[test]
fn a_checkout_takes_its_steps_in_order() {
    let mut seen = Vec::new();
    let mut turn = check_out(&source("protos"), &PathBuf::from_text("/c"), "x".to_string());
    let entry = loop {
        turn = match turn {
            Turn::Ask(run, Request::Run(command)) => {
                seen.push(command.args[0].clone());
                run.step(Reply::Exited { success: true })
            }
            Turn::Ask(_, request) => panic!("{:?}", request),
            Turn::End(CheckoutOutcome::Cached(entry)) => break entry,
            Turn::End(outcome) => panic!("{:?}", outcome),
        };
    };
    assert_eq!(seen, vec![b"clone".to_vec(), b"sparse-checkout".to_vec(), b"checkout".to_vec()]);
    assert_eq!(entry.path.bytes, b"/c/x");
    assert!(entry.source == Source::Remote(source("protos")));
}

#[test]
fn a_checkout_without_a_path_has_two_steps() {
    let mut count = 0;
    let mut turn = check_out(&source(""), &PathBuf::from_text("/c"), "x".to_string());
    while let Turn::Ask(run, _) = turn {
        count += 1;
        turn = run.step(Reply::Exited { success: true });
    }
    assert_eq!(count, 2);
    assert!(matches!(turn, Turn::End(CheckoutOutcome::Cached(_))));
}

#[test]
fn a_checkout_stops_where_git_is_not_successful() {
    for failing in 0..2 {
        let mut turn = check_out(&source("protos"), &PathBuf::from_text("/c"), "x".to_string());
        let mut n = 0;
        while let Turn::Ask(run, _) = turn {
            turn = run.step(Reply::Exited { success: n != failing });
            n += 1;
        }
        assert_eq!(n, failing + 1);
        match turn {
            Turn::End(CheckoutOutcome::Failed(CheckoutError::Unsuccessful(stage))) => {
                assert_eq!(matches!(stage, CheckoutStage::Clone), failing == 0);
                assert_eq!(matches!(stage, CheckoutStage::SparseCheckout), failing == 1);
            }
            other => panic!("{:?}", other),
        }
    }
}

#[test]
fn what_the_last_step_leaves_is_taken_as_it_is() {
    let mut turn = check_out(&source(""), &PathBuf::from_text("/c"), "x".to_string());
    let mut n = 0;
    while let Turn::Ask(run, _) = turn {
        turn = run.step(Reply::Exited { success: n == 0 });
        n += 1;
    }
    assert_eq!(n, 2);
    assert!(matches!(turn, Turn::End(CheckoutOutcome::Cached(_))));
}

#[test]
fn a_checkout_stops_where_git_cannot_be_started() {
    for failing in 0..3 {
        let mut turn = check_out(&source("protos"), &PathBuf::from_text("/c"), "x".to_string());
        let mut n = 0;
        while let Turn::Ask(run, _) = turn {
            let reply = if n == failing { Reply::Failed } else { Reply::Exited { success: true } };
            turn = run.step(reply);
            n += 1;
        }
        assert!(matches!(
            turn,
            Turn::End(CheckoutOutcome::Failed(CheckoutError::NotStarted(_)))
        ));
        assert_eq!(n, failing + 1);
    }
}

#[test]
fn a_remote_source_is_cloned_under_a_random_name() {
    match cache_remote_source(&source(""), &PathBuf::from_text("/c")) {
        Turn::Ask(_, Request::Run(command)) => {
            let name = String::from_utf8(command.args.last().unwrap().clone()).unwrap();
            assert!(is_uuid(&name), "{}", name);
        }
        other => panic!("{:?}", other),
    }
}
