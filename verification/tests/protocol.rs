use velocity::addon::{AddonKind, BackgroundServiceAddonConfig, BackupAddonConfig, DatabaseAddonConfig};
use velocity::config::{
    default_audit_log_path, default_auth_failures, default_ban_duration, default_bind_address,
    default_bool_true, default_cache, default_compaction, default_log_level,
    default_max_connections, default_memtable, default_metrics_interval, default_rate_limit,
    default_timeout, AddonsSection, LoggingSection, SecuritySection, ServerConfigSection,
};
use velocity::server::{MessageType, RateLimiter, VelocityMessage};
use velocity::VeloError;

#[test]
fn frame_of_a_ping() {
    let frame = VelocityMessage::new(MessageType::Ping, Vec::new()).encode();
    assert_eq!(frame, vec![79, 76, 69, 86, 1, 0x20, 0, 0, 0, 0, 237, 40, 120, 159]);
}

#[test]
fn frame_of_a_command() {
    let frame = VelocityMessage::new(MessageType::Command, b"hello".to_vec()).encode();
    assert_eq!(
        frame,
        vec![79, 76, 69, 86, 1, 0x10, 5, 0, 0, 0, 104, 101, 108, 108, 111, 115, 74, 141, 13]
    );
}

#[test]
fn frames_read_back() {
    for kind in [
        MessageType::Hello,
        MessageType::ServerInfo,
        MessageType::AuthRequest,
        MessageType::AuthResponse,
        MessageType::Disconnect,
        MessageType::Command,
        MessageType::Response,
        MessageType::Error,
        MessageType::Ping,
        MessageType::Pong,
        MessageType::Stats,
    ] {
        let payload = vec![kind.code(); 37];
        let mut frame = VelocityMessage::new(kind, payload.clone()).encode();
        frame.extend_from_slice(b"trailing bytes are ignored");
        let message = VelocityMessage::decode(&frame).unwrap();
        assert_eq!(message.msg_type, kind);
        assert_eq!(message.payload, payload);
    }
}

#[test]
fn damaged_frames_are_refused() {
    let frame = VelocityMessage::new(MessageType::Command, b"hello".to_vec()).encode();
    assert!(matches!(
        VelocityMessage::decode(&frame[..13]),
        Err(VeloError::InvalidOperation(_))
    ));
    let mut bad_magic = frame.clone();
    bad_magic[0] ^= 1;
    assert!(matches!(VelocityMessage::decode(&bad_magic), Err(VeloError::InvalidOperation(_))));
    let mut bad_version = frame.clone();
    bad_version[4] = 2;
    assert!(matches!(VelocityMessage::decode(&bad_version), Err(VeloError::InvalidOperation(_))));
    assert!(matches!(
        VelocityMessage::decode(&frame[..frame.len() - 1]),
        Err(VeloError::InvalidOperation(_))
    ));
    let mut bad_payload = frame.clone();
    bad_payload[12] ^= 0x40;
    assert!(matches!(VelocityMessage::decode(&bad_payload), Err(VeloError::CorruptedData(_))));
    let mut bad_sum = frame.clone();
    let last = bad_sum.len() - 1;
    bad_sum[last] ^= 1;
    assert!(matches!(VelocityMessage::decode(&bad_sum), Err(VeloError::CorruptedData(_))));
    let mut huge = frame.clone();
    huge[6..10].copy_from_slice(&u32::MAX.to_le_bytes());
    assert!(matches!(VelocityMessage::decode(&huge), Err(VeloError::InvalidOperation(_))));
}

#[test]
fn message_kinds_by_their_bytes() {
    assert_eq!(MessageType::from(0x01), MessageType::Hello);
    assert_eq!(MessageType::from(0x05), MessageType::Disconnect);
    assert_eq!(MessageType::from(0x10), MessageType::Command);
    assert_eq!(MessageType::from(0x12), MessageType::Error);
    assert_eq!(MessageType::from(0x22), MessageType::Stats);
    assert_eq!(MessageType::from(0x00), MessageType::Error);
    assert_eq!(MessageType::from(0x06), MessageType::Error);
    assert_eq!(MessageType::from(0xff), MessageType::Error);
    assert_eq!(MessageType::Pong.code(), 0x21);
    for b in 0..=255u8 {
        let kind = MessageType::from(b);
        if kind != MessageType::Error {
            assert_eq!(kind.code(), b);
        }
    }
}

#[test]
fn rate_limiter_spends_and_refills() {
    let mut limiter = RateLimiter::new(2);
    assert_eq!(limiter.try_acquire(0), (true, false));
    assert_eq!(limiter.try_acquire(500), (true, false));
    assert_eq!(limiter.try_acquire(999), (false, false));
    assert_eq!(limiter.try_acquire(1000), (true, true));
    assert_eq!(limiter.try_acquire(0), (true, false));
    assert_eq!(limiter.try_acquire(0), (false, false));
    let mut closed = RateLimiter::new(0);
    assert_eq!(closed.try_acquire(5000), (false, true));
}

#[test]
fn configuration_defaults() {
    assert_eq!(default_bind_address(), "127.0.0.1:2005");
    assert_eq!(default_max_connections(), 1000);
    assert_eq!(default_timeout(), 300);
    assert_eq!(default_rate_limit(), 1000);
    assert_eq!(default_log_level(), "info");
    assert!(default_bool_true());
    assert_eq!(default_metrics_interval(), 60);
    assert_eq!(default_audit_log_path(), "./velocitydb_audit.log");
    assert_eq!(default_ban_duration(), 300);
    assert_eq!(default_auth_failures(), 5);
    assert_eq!(default_memtable(), 10000);
    assert_eq!(default_cache(), 5000);
    assert_eq!(default_compaction(), 8);
}

#[test]
fn section_defaults() {
    let server = ServerConfigSection::default();
    assert_eq!(server.bind_address, "127.0.0.1:2005");
    assert_eq!(server.max_connections, 1000);
    assert_eq!(server.connection_timeout_seconds, 300);
    assert_eq!(server.rate_limit_per_second, 1000);
    assert!(!server.enable_tls);
    assert_eq!(LoggingSection::default().level, "info");
    let security = SecuritySection::default();
    assert_eq!(security.audit_log_path, "./velocitydb_audit.log");
    assert!(security.audit_logging);
    assert_eq!(security.auth_ban_duration, 300);
    assert_eq!(security.max_auth_failures, 5);
    let addons = AddonsSection::default();
    assert!(addons.database.is_none());
    assert!(addons.backup.is_none());
    assert!(addons.background_service.is_some());
}

#[test]
fn addon_defaults_and_names() {
    let database = DatabaseAddonConfig::default();
    assert!(database.enabled);
    assert_eq!(database.default_path, "./externals_dbs");
    assert!(database.databases.is_empty());
    let backup = BackupAddonConfig::default();
    assert!(!backup.enabled);
    assert_eq!(backup.backup_path, "./backups");
    assert_eq!(backup.interval_minutes, 60);
    assert!(backup.backup_all);
    assert!(backup.target_databases.is_empty());
    let service = BackgroundServiceAddonConfig::default();
    assert!(!service.enabled);
    assert!(service.watch_config);
    assert_eq!(AddonKind::Database.as_str(), "database");
    assert_eq!(AddonKind::Backup.as_str(), "backup");
}

#[test]
fn frame_is_body_and_checksum() {
    let message = VelocityMessage::new(MessageType::Command, b"hello".to_vec());
    let body = message.encode_body();
    assert_eq!(body, vec![79, 76, 69, 86, 1, 0x10, 5, 0, 0, 0, 104, 101, 108, 108, 111]);
    let sealed = VelocityMessage::seal(body.clone(), 0x0403_0201);
    assert_eq!(&sealed[..15], &body[..]);
    assert_eq!(&sealed[15..], &[1, 2, 3, 4]);
    assert_eq!(VelocityMessage::seal(body, 0x0d8d_4a73), message.encode());
}

#[test]
fn header_gives_the_payload_length() {
    let frame = VelocityMessage::new(MessageType::Command, b"hello".to_vec()).encode();
    assert_eq!(VelocityMessage::check_header(&frame), Ok(5));
    assert_eq!(
        VelocityMessage::check_header(&frame[..13]),
        Err(VeloError::InvalidOperation("Message too short".to_string()))
    );
    assert_eq!(
        VelocityMessage::check_header(&frame[..18]),
        Err(VeloError::InvalidOperation("Incomplete message".to_string()))
    );
    let mut bad = frame.clone();
    bad[3] = 0;
    assert_eq!(
        VelocityMessage::check_header(&bad),
        Err(VeloError::InvalidOperation("Invalid magic".to_string()))
    );
    let mut bad = frame.clone();
    bad[4] = 9;
    assert_eq!(
        VelocityMessage::check_header(&bad),
        Err(VeloError::InvalidOperation("Unsupported version".to_string()))
    );
}

#[test]
fn frame_is_read_against_a_given_checksum() {
    let data = vec![79, 76, 69, 86, 1, 0x20, 2, 0, 0, 0, 7, 8, 0x78, 0x56, 0x34, 0x12, 99];
    let message = VelocityMessage::decode_checked(&data, 0x1234_5678).unwrap();
    assert_eq!(message.msg_type, MessageType::Ping);
    assert_eq!(message.payload, vec![7, 8]);
    assert_eq!(
        VelocityMessage::decode_checked(&data, 0x1234_5679).unwrap_err(),
        VeloError::CorruptedData("Invalid checksum".to_string())
    );
    assert_eq!(
        VelocityMessage::decode_checked(&data[..15], 0x1234_5678).unwrap_err(),
        VeloError::InvalidOperation("Incomplete message".to_string())
    );
    // The checksum of these bytes is another, so the frame is refused as a whole.
    assert_eq!(
        VelocityMessage::decode(&data).unwrap_err(),
        VeloError::CorruptedData("Invalid checksum".to_string())
    );
}
