use kvstore::cli::Cli;

#[test]
fn new_no_args() {
    let cla: Vec<String> = vec!["kvstore"].into_iter().map(|s| s.to_string()).collect();
    let cli = Cli::new(cla);
    assert_eq!(cli, Cli { args: vec![], flags: vec![] })
}

#[test]
fn new_args() {
    let cla: Vec<String> =
        vec!["kvstore", "hello", "world"].into_iter().map(|s| s.to_string()).collect();
    let cli = Cli::new(cla);
    assert_eq!(
        cli,
        Cli { args: vec![String::from("hello"), String::from("world")], flags: vec![] }
    )
}

#[test]
fn new_args_and_flags() {
    let cla: Vec<String> = vec!["kvstore", "hello", "world", "--init"]
        .into_iter()
        .map(|s| s.to_string())
        .collect();
    let cli = Cli::new(cla);
    assert_eq!(
        cli,
        Cli {
            args: vec![String::from("hello"), String::from("world")],
            flags: vec![String::from("--init")],
        }
    )
}

#[test]
fn next_arg() {
    let mut cli = Cli {
        args: vec![String::from("hello"), String::from("world")],
        flags: vec![String::from("--init")],
    };
    assert_eq!(cli.next_arg(), Some("hello".to_string()));
    assert_eq!(cli.next_arg(), Some("world".to_string()));
    assert_eq!(cli.next_arg(), None);
}

#[test]
fn check_flag() {
    let cli = Cli {
        args: vec![String::from("hello"), String::from("world")],
        flags: vec![String::from("--init")],
    };
    assert_eq!(cli.check_flag("--init"), true);
    assert_eq!(cli.check_flag("--help"), false);
}
