use ping_pong::config::{Config, ConfigError};

fn args(words: &[&str]) -> Vec<String> {
    words.iter().map(|w| w.to_string()).collect()
}

#[test]
fn settings_accept_a_start_below_the_count() {
    assert_eq!(Config::new(5, 2), Ok(Config { num_servers: 5, start_server: 2 }));
    assert_eq!(Config::new(1, 0), Ok(Config { num_servers: 1, start_server: 0 }));
    assert_eq!(Config::new(5, 4), Ok(Config { num_servers: 5, start_server: 4 }));
}

#[test]
fn settings_refuse_a_start_out_of_range() {
    assert_eq!(Config::new(5, 5), Err(ConfigError::StartOutOfRange { num_servers: 5 }));
    assert_eq!(Config::new(2, 9), Err(ConfigError::StartOutOfRange { num_servers: 2 }));
    assert_eq!(Config::new(0, 0), Err(ConfigError::StartOutOfRange { num_servers: 0 }));
}

#[test]
fn arguments_are_read_as_numbers() {
    assert_eq!(
        Config::from_arguments(&args(&["relay", "5", "2"])),
        Ok(Config { num_servers: 5, start_server: 2 })
    );
    assert_eq!(
        Config::from_arguments(&args(&["relay", "12", "0"])),
        Ok(Config { num_servers: 12, start_server: 0 })
    );
}

#[test]
fn wrong_argument_count_is_refused() {
    assert_eq!(Config::from_arguments(&args(&[])), Err(ConfigError::WrongArgumentCount));
    assert_eq!(Config::from_arguments(&args(&["relay"])), Err(ConfigError::WrongArgumentCount));
    assert_eq!(
        Config::from_arguments(&args(&["relay", "5"])),
        Err(ConfigError::WrongArgumentCount)
    );
    assert_eq!(
        Config::from_arguments(&args(&["relay", "5", "2", "1"])),
        Err(ConfigError::WrongArgumentCount)
    );
}

#[test]
fn arguments_that_are_no_numbers_are_refused() {
    assert_eq!(
        Config::from_arguments(&args(&["relay", "five", "2"])),
        Err(ConfigError::InvalidServerCount)
    );
    assert_eq!(
        Config::from_arguments(&args(&["relay", "-3", "2"])),
        Err(ConfigError::InvalidServerCount)
    );
    assert_eq!(
        Config::from_arguments(&args(&["relay", "", "x"])),
        Err(ConfigError::InvalidServerCount)
    );
    assert_eq!(
        Config::from_arguments(&args(&["relay", "5", "2.0"])),
        Err(ConfigError::InvalidStartIndex)
    );
    assert_eq!(
        Config::from_arguments(&args(&["relay", "5", ""])),
        Err(ConfigError::InvalidStartIndex)
    );
}

#[test]
fn start_beyond_the_peers_is_refused() {
    assert_eq!(
        Config::from_arguments(&args(&["relay", "5", "5"])),
        Err(ConfigError::StartOutOfRange { num_servers: 5 })
    );
    assert_eq!(
        Config::from_arguments(&args(&["relay", "0", "0"])),
        Err(ConfigError::StartOutOfRange { num_servers: 0 })
    );
}
