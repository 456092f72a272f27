use player_sync::components::IsServer;
use player_sync::role::{parse_args, RoleError};

fn args(list: &[&str]) -> Vec<String> {
    list.iter().map(|s| s.to_string()).collect()
}

#[test]
fn no_option_means_server() {
    assert_eq!(parse_args(&args(&["game"])), Ok(IsServer(true)));
    assert_eq!(parse_args(&args(&[])), Ok(IsServer(true)));
}

#[test]
fn accepted_spellings() {
    assert_eq!(parse_args(&args(&["game", "--server"])), Ok(IsServer(true)));
    assert_eq!(parse_args(&args(&["game", "-s"])), Ok(IsServer(true)));
    assert_eq!(parse_args(&args(&["game", "--client"])), Ok(IsServer(false)));
    assert_eq!(parse_args(&args(&["game", "-c", "extra"])), Ok(IsServer(false)));
}

#[test]
fn invalid_option_is_an_error() {
    let r = parse_args(&args(&["game", "--clients"]));
    assert_eq!(r, Err(RoleError::InvalidOption));
    assert!(RoleError::InvalidOption.message().starts_with("Invalid option provided."));
    assert_eq!(parse_args(&args(&["game", "-x"])), Err(RoleError::InvalidOption));
    assert_eq!(parse_args(&args(&["game", ""])), Err(RoleError::InvalidOption));
}
