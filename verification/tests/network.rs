use lyrion::errors::{other, ChainError};
use lyrion::identity::{check_secret_file, load_keypair, NodeKeypair};
use lyrion::mempool::Mempool;
use lyrion::net::{
    block_reply, check_handshake, make_handshake, tx_reply, PeerManager, Reaction, Received,
    HANDSHAKE_LEN, HANDSHAKE_READ_LEN, MAX_PENDING_INV,
};
use lyrion::peers::{make_ban_record, Admission, BanList, Ip, IpMap, Peer, PeerTable, BAN_MS};
use lyrion::state::{save_block, IdMap};
use lyrion::store::{put_op, Cf, Snapshot};
use lyrion::tx::{Block, BlockHeader, TXInput, TXOutput, Transaction};
use lyrion::wire::{
    addr_message, announcement, block_message, classify_frame, copy_texts, getaddr_message,
    getdata_message, headers_message, inv_message, is_compressed_when_sent, make_frame,
    open_frame, parse_message, pong_message, read8, read_u32, request_for, tx_message, FrameKind,
    HeaderRun, Message, MessageError, MAX_MESSAGE_SIZE, MSG_ADDR, MSG_GETHEADERS, MSG_PING,
};

fn unhex(s: &str) -> Vec<u8> {
    hex::decode(s).unwrap()
}

fn keys(n: u8) -> NodeKeypair {
    NodeKeypair::from_secret([n; 32])
}

fn header(prev: u8) -> BlockHeader {
    BlockHeader {
        version: 1,
        prev_hash: [prev; 32],
        merkle_root: [0; 32],
        timestamp: 5,
        bits: 6,
        nonce: 7,
    }
}

fn sample() -> Transaction {
    Transaction {
        version: 1,
        is_anonymous: false,
        inputs: vec![TXInput { txid: [1; 32], vout: 0, script_sig: vec![], sequence: 0 }],
        outputs: vec![TXOutput { value: 4, script_pubkey: vec![5], commitment: None }],
        lock_time: 0,
        range_proofs: vec![],
    }
}

#[test]
fn secret_files_are_private() {
    assert_eq!(check_secret_file(7, 7, 0o600, 32), Ok(()));
    assert_eq!(
        check_secret_file(0, 7, 0o600, 32),
        Err(ChainError::FilePermissionError("Wrong owner".to_string()))
    );
    assert_eq!(
        check_secret_file(7, 7, 0o640, 32),
        Err(ChainError::FilePermissionError("Permissions too broad".to_string()))
    );
    assert_eq!(check_secret_file(7, 7, 0o100600, 4096), Ok(()));
    assert_eq!(
        check_secret_file(7, 7, 0o600, 4097),
        Err(ChainError::FilePermissionError("Key file too large".to_string()))
    );
}

#[test]
fn node_keys_sign() {
    let secret = unhex("9d61b19deffd5a60ba844af492ec2cc44449c5697b326919703bac031cae7f60");
    let keys = load_keypair(&secret).unwrap();
    assert_eq!(
        keys.public().to_vec(),
        unhex("d75a980182b10ab7d54bfed3c964073a0ee172f3daa62325af021a68f707511a")
    );
    assert_eq!(
        keys.sign(b"").to_vec(),
        unhex(
            "e5564300c360ac729086e2cc806e828a84877f1eb8e5d974d873e065224901555fb8821590a33bac\
             c61e39701cf9b46bd25bf5f0595bbe24655141438e7a100b"
        )
    );
    assert!(matches!(load_keypair(&secret[1..]), Err(ChainError::InvalidEncryptionKey)));
}

#[test]
fn handshakes_are_made_and_refused() {
    let genesis = [9; 32];
    let h = make_handshake(&keys(1), &genesis, 1_000_000, &[3; 12]);
    assert_eq!(h.len(), HANDSHAKE_LEN);
    assert_eq!(h[..4], [1, 0, 0, 0]);
    assert_eq!(h[4..36], genesis);
    assert_eq!(h[64..96], keys(1).public());
    assert_eq!(check_handshake(&h), Err(ChainError::InvalidHandshake));
    let zero = make_handshake(&keys(1), &genesis, 1_000_000, &[0; 12]);
    assert_eq!(check_handshake(&zero), Err(ChainError::InvalidHandshake));
    let mut bad = h.clone();
    bad[0] = 2;
    assert_eq!(check_handshake(&bad), Err(other("Signature verification failed")));
    let mut bad = h.clone();
    bad[159] |= 0xe0;
    assert_eq!(check_handshake(&bad), Err(other("Invalid signature")));
    // A key that is no point of the curve.
    let mut bad = h.clone();
    bad[64..96].copy_from_slice(&[2; 32]);
    assert_eq!(check_handshake(&bad), Err(other("Invalid public key")));
}

fn manager() -> PeerManager {
    PeerManager::new(keys(5), &vec!["seed:1".to_string()], 100)
}

#[test]
fn a_manager_greets_and_refuses_greetings() {
    let genesis = [9; 32];
    let m = manager();
    let h = make_handshake(&keys(1), &genesis, 1_000_000, &[3; 12]);
    assert_eq!(m.handshake(&h[1..], 50), Err(ChainError::InvalidHandshake));
    let mut read = h.clone();
    read.resize(HANDSHAKE_READ_LEN, 0);
    assert_eq!(m.handshake(&read, 50), Err(ChainError::InvalidHandshake));
    assert_eq!(m.handshake(&h, 50), Err(ChainError::InvalidHandshake));
    let mut bad = h.clone();
    bad[64..96].copy_from_slice(&[2; 32]);
    assert_eq!(m.handshake(&bad, 50), Err(other("Invalid public key")));
    assert_eq!(m.new_peer().peer_id, keys(5).public());
    assert_eq!(m.new_peer().score, 100);
    let greeting = m.greeting(&genesis, 1_000_000, &[3; 12]);
    assert_eq!(greeting, make_handshake(&keys(5), &genesis, 1_000_000, &[3; 12]));
}

#[test]
fn a_peer_is_banned_at_its_fifth_fault() {
    let mut m = manager();
    let ip = Ip::V4([10, 0, 0, 7]);
    m.add_peer(ip, 1, "10.0.0.7:9".to_string());
    let mut peer = m.new_peer();
    for _ in 0..4 {
        assert!(!m.fault(&mut peer, ip, 1000));
        assert!(!m.is_banned(&ip, 1000));
    }
    assert!(m.fault(&mut peer, ip, 1000));
    assert_eq!(peer.reputation, -50);
    assert!(m.is_banned(&ip, 1000));
    assert_eq!(m.may_connect(&ip, 1000), Admission::Banned);
    assert!(m.is_banned(&ip, 1000 + BAN_MS - 1));
    assert!(!m.is_banned(&ip, 1000 + BAN_MS));
    assert_eq!(m.may_connect(&ip, 1000 + BAN_MS), Admission::Accepted);
}

#[test]
fn scores_fall() {
    let mut p = Peer::new([1; 32]);
    assert!(!p.penalize(100));
    assert_eq!(p.score, 0);
    assert!(p.penalize(1));
    assert_eq!(p.score, -1);
    assert!(!p.decrease_reputation());
    assert_eq!(p.reputation, -10);
}

#[test]
fn connections_are_limited() {
    let mut t = PeerTable::new();
    let ip = Ip::V4([10, 0, 0, 7]);
    assert_eq!(t.judge(false, &ip, 20), Admission::Accepted);
    assert_eq!(t.judge(true, &ip, 20), Admission::Banned);
    assert_eq!(t.judge(false, &ip, 9), Admission::Full);
    t.add_connection(ip, 1);
    t.add_connection(ip, 2);
    assert_eq!(t.count(&ip), 2);
    assert_eq!(t.len(), 1);
    assert_eq!(t.judge(false, &ip, 20), Admission::Full);
    assert_eq!(t.judge(false, &ip, 30), Admission::Accepted);
    let base = Ip::V4([10, 0, 0, 0]);
    t.add_connection(base, 3);
    t.add_connection(base, 4);
    assert_eq!(t.judge(false, &ip, 30), Admission::Crowded);
    t.remove_peer(&base, 3);
    assert_eq!(t.judge(false, &ip, 30), Admission::Accepted);
    t.remove_peer(&ip, 1);
    assert_eq!(t.count(&ip), 1);
    t.remove_peer(&ip, 2);
    assert_eq!(t.count(&ip), 0);
    t.remove_peers(&base);
    assert_eq!(t.len(), 0);
}

#[test]
fn subnets_drop_the_last_part() {
    assert_eq!(Ip::V4([1, 2, 3, 4]).subnet(), Ip::V4([1, 2, 3, 0]));
    let mut six = [7u8; 16];
    let ip = Ip::V6(six);
    six[14] = 0;
    six[15] = 0;
    assert_eq!(ip.subnet(), Ip::V6(six));
    assert!(ip.same(&Ip::V6([7; 16])));
    assert!(!ip.same(&Ip::V4([7; 4])));
}

#[test]
fn addresses_lead_to_values() {
    let mut m: IpMap<u8> = IpMap::new();
    let (a, b) = (Ip::V4([1, 1, 1, 1]), Ip::V6([1; 16]));
    m.insert(a, 1);
    m.insert(b, 2);
    m.insert(a, 3);
    assert_eq!(m.len(), 2);
    assert_eq!(m.get(&a), Some(&3));
    assert_eq!(m.take(&b), Some(2));
    assert_eq!(m.get(&b), None);
    assert_eq!(m.take(&b), None);
    let mut bans = BanList::new();
    bans.insert(a, 10);
    bans.insert(b, 20);
    bans.drop_expired(10);
    assert!(!bans.contains(&a));
    assert!(bans.contains(&b));
}

#[test]
fn bans_are_recorded() {
    let op = make_ban_record("10.0.0.7", 1000);
    assert_eq!(op.cf, Cf::Default);
    assert_eq!(op.key, b"ban:10.0.0.7".to_vec());
    assert_eq!(op.value, Some(260_200u64.to_be_bytes().to_vec()));
}

#[test]
fn peers_come_and_go() {
    let mut m = manager();
    assert!(m.needs_peers());
    for n in 0..50u8 {
        m.add_peer(Ip::V4([n, 1, 1, 1]), n as u64, format!("{}.1.1.1:1", n));
    }
    assert!(!m.needs_peers());
    m.remove_peer(&Ip::V4([3, 1, 1, 1]), 3);
    assert!(m.needs_peers());
    m.ban_ip(Ip::V4([4, 1, 1, 1]), 0);
    assert!(m.is_banned(&Ip::V4([4, 1, 1, 1]), 1));
    match parse_message(&m.addr_reply()) {
        Ok(Message::Addr(v)) => {
            assert_eq!(v.len(), 51);
            assert_eq!(v[0], "seed:1");
        }
        _ => panic!("addresses are told"),
    }
}

#[test]
fn addresses_are_learned_once() {
    let mut m = manager();
    m.learn(&vec!["a:1".to_string(), "seed:1".to_string(), "a:1".to_string()]);
    match parse_message(&m.addr_reply()) {
        Ok(Message::Addr(v)) => assert_eq!(v, vec!["seed:1".to_string(), "a:1".to_string()]),
        _ => panic!("addresses are told"),
    }
    assert_eq!(m.known_addresses(), vec!["seed:1".to_string(), "a:1".to_string()]);
    assert_eq!(copy_texts(&vec!["x".to_string()]), vec!["x".to_string()]);
}

#[test]
fn too_many_announcements_are_a_flood() {
    let mut m = manager();
    let msg = inv_message(2, &[1; 32]);
    for _ in 0..MAX_PENDING_INV {
        assert!(matches!(m.receive(&[7; 32], &msg), Received::Message(Message::Inv(2, _))));
    }
    assert!(matches!(m.receive(&[7; 32], &msg), Received::Flooded));
    assert!(matches!(m.receive(&[8; 32], &msg), Received::Message(_)));
    assert!(matches!(m.receive(&[7; 32], &getaddr_message()), Received::Message(Message::GetAddr)));
    assert!(matches!(m.receive(&[7; 32], &[1]), Received::Refused(_)));
}

#[test]
fn frames_read_back() {
    assert!(!is_compressed_when_sent(1024));
    assert!(is_compressed_when_sent(1025));
    let content = vec![5u8; 10];
    let plain = make_frame(false, &content);
    assert_eq!(plain[0], 0);
    assert_eq!(classify_frame(&plain), FrameKind::Plain);
    assert_eq!(open_frame(&plain, None), Ok(content.clone()));
    let packed = make_frame(true, &[1, 2, 3, 4]);
    assert_eq!(classify_frame(&packed), FrameKind::Compressed);
    assert_eq!(open_frame(&packed, Some(content.clone())), Ok(content.clone()));
    assert_eq!(open_frame(&packed, None), Err(ChainError::DecompressionFailed));
    assert_eq!(open_frame(&packed, Some(vec![0; 16_777_217])), Err(ChainError::AttackDetected));
}

#[test]
fn bad_frames_are_refused() {
    assert_eq!(classify_frame(&[]), FrameKind::Closed);
    assert_eq!(classify_frame(&vec![0; MAX_MESSAGE_SIZE + 1]), FrameKind::Oversized);
    assert_eq!(open_frame(&[], None), Err(ChainError::AttackDetected));
    assert_eq!(
        open_frame(&[0, 1, 2], None),
        Err(ChainError::InvalidBlock("Message too short".to_string()))
    );
}

#[test]
fn messages_read_back() {
    let h = [3; 32];
    assert!(matches!(parse_message(&inv_message(1, &h)), Ok(Message::Inv(1, x)) if x == h));
    assert!(matches!(parse_message(&getdata_message(2, &h)), Ok(Message::GetData(2, x)) if x == h));
    assert!(matches!(parse_message(&tx_message(&sample())), Ok(Message::Tx(t)) if t == sample()));
    let b = Block { header: header(1), txs: vec![sample()] };
    assert!(matches!(parse_message(&block_message(&b)), Ok(Message::Block(x)) if x.txs == b.txs));
    assert!(matches!(
        parse_message(&headers_message(&vec![header(1), header(2)])),
        Ok(Message::Headers(v)) if v.len() == 2 && v[1].prev_hash == [2; 32]
    ));
    assert!(matches!(parse_message(&getaddr_message()), Ok(Message::GetAddr)));
    let list = vec!["a:1".to_string()];
    assert!(matches!(parse_message(&addr_message(&list)), Ok(Message::Addr(v)) if v == list));
    assert!(matches!(parse_message(&pong_message(&[1; 8])), Ok(Message::Pong)));
    let mut ping = MSG_PING.to_le_bytes().to_vec();
    ping.extend_from_slice(&[1, 2, 3, 4, 5, 6, 7, 8]);
    assert!(matches!(parse_message(&ping), Ok(Message::Ping([1, 2, 3, 4, 5, 6, 7, 8]))));
    let mut ask = MSG_GETHEADERS.to_le_bytes().to_vec();
    ask.extend_from_slice(&[4; 32]);
    ask.extend_from_slice(&[5; 36]);
    assert!(matches!(
        parse_message(&ask),
        Ok(Message::GetHeaders(a, b)) if a == [4; 32] && b == [5; 32]
    ));
    assert!(matches!(
        parse_message(&ask[..40]),
        Ok(Message::GetHeaders(a, b)) if a == [4; 32] && b == [0; 32]
    ));
}

#[test]
fn malformed_messages_are_refused() {
    let refused = |data: &[u8], e: ChainError| {
        assert!(matches!(parse_message(data), Err(MessageError::Refused(x)) if x == e));
    };
    refused(&[99, 0, 0, 0], other("Unknown message type"));
    refused(&[5, 0, 0, 0, 1], other("Deserialize transaction failed"));
    refused(&[6, 0, 0, 0, 1], other("Deserialize block failed"));
    refused(&[8, 0, 0, 0, 1], other("Deserialize headers failed"));
    refused(&[10, 0, 0, 0, 1], other("Deserialize addresses failed"));
    refused(&[4, 0, 0, 0, 1], ChainError::InvalidBlock("GETHEADERS too short".to_string()));
    assert!(matches!(parse_message(&[11, 0, 0, 0, 1]), Err(MessageError::Truncated)));
    assert!(matches!(parse_message(&[1, 0, 0, 0, 2]), Err(MessageError::Truncated)));
    assert!(matches!(parse_message(&[3, 0, 0, 0, 2]), Err(MessageError::Truncated)));
    refused(&[1, 0], ChainError::InvalidBlock("Message too short".to_string()));
}

#[test]
fn what_is_new_is_asked_for() {
    let h = [3; 32];
    assert_eq!(request_for(1, &h, false, false), Some(getdata_message(1, &h)));
    assert_eq!(request_for(1, &h, true, false), None);
    assert_eq!(request_for(1, &h, false, true), None);
    assert_eq!(request_for(2, &h, true, false), Some(getdata_message(2, &h)));
    assert_eq!(request_for(2, &h, false, true), None);
    assert_eq!(request_for(3, &h, false, false), None);
}

#[test]
fn peers_are_announced_with_the_time() {
    let msg = announcement(258, "a:1");
    assert_eq!(read_u32(&msg, 0), MSG_ADDR);
    assert_eq!(read8(&msg, 4), [2, 1, 0, 0, 0, 0, 0, 0]);
    assert_eq!(msg[20..], addr_message(&vec!["a:1".to_string()])[4..]);
}

#[test]
fn headers_follow_one_another() {
    let mut run = HeaderRun::start(&header(1));
    let b = run.step(&header(1), &[2; 32]).unwrap();
    assert_eq!(b.header.prev_hash, [1; 32]);
    assert!(b.txs.is_empty());
    assert!(run.step(&header(2), &[3; 32]).is_ok());
    assert!(matches!(
        run.step(&header(2), &[4; 32]),
        Err(e) if e == ChainError::InvalidBlock("Discontinuous headers".to_string())
    ));
    assert!(run.step(&header(3), &[4; 32]).is_ok());
}

#[test]
fn requests_are_answered() {
    let mut db = Snapshot::new();
    let mut pool = Mempool::new(1_000_000);
    let t = sample();
    let spent = TXOutput { value: 9_999, script_pubkey: vec![], commitment: None };
    db.apply(put_op(
        Cf::Utxo,
        &lyrion::keys::make_outpoint_key(false, &[1; 32], 0),
        &lyrion::codec::serialize_output(&spent),
    ));
    assert_eq!(tx_reply(&pool, &t.hash()), None);
    assert!(pool.insert(t.clone(), &db, 1).is_ok());
    assert_eq!(tx_reply(&pool, &t.hash()), Some(tx_message(&t)));
    let b = Block { header: header(1), txs: vec![t] };
    let mut heights = IdMap::new();
    assert!(block_reply(&db, &heights, &[4; 32]).is_none());
    heights.insert([4; 32], 3);
    assert_eq!(block_reply(&db, &heights, &[4; 32]), Some(Err(other("Missing hash"))));
    db.apply_all(&save_block(3, &b, &[4; 32]));
    assert_eq!(block_reply(&db, &heights, &[4; 32]), Some(Ok(block_message(&b))));
}

#[test]
fn messages_are_acted_upon() {
    let mut m = manager();
    let mut db = Snapshot::new();
    let mut pool = Mempool::new(1_000_000);
    let mut heights = IdMap::new();
    let t = sample();
    let spent = TXOutput { value: 9_999, script_pubkey: vec![], commitment: None };
    db.apply(put_op(
        Cf::Utxo,
        &lyrion::keys::make_outpoint_key(false, &[1; 32], 0),
        &lyrion::codec::serialize_output(&spent),
    ));
    let b = Block { header: header(1), txs: vec![] };
    db.apply_all(&save_block(3, &b, &[4; 32]));
    heights.insert([4; 32], 3);
    let ask = getdata_message(1, &t.hash());
    let r = m.handle_message(&[7; 32], &ask, &mut pool, &db, &heights, 1);
    assert!(matches!(r, Reaction::Nothing));
    let r = m.handle_message(&[7; 32], &inv_message(1, &t.hash()), &mut pool, &db, &heights, 1);
    assert!(matches!(r, Reaction::Noted(1, hash) if hash == t.hash()));
    let r = m.handle_message(&[7; 32], &tx_message(&t), &mut pool, &db, &heights, 1);
    assert!(matches!(r, Reaction::Broadcast(v) if v == inv_message(1, &t.hash())));
    assert!(pool.contains(&t.hash()));
    let r = m.handle_message(&[7; 32], &tx_message(&t), &mut pool, &db, &heights, 1);
    assert!(matches!(r, Reaction::Nothing));
    let r = m.handle_message(&[7; 32], &ask, &mut pool, &db, &heights, 1);
    assert!(matches!(r, Reaction::Reply(v) if v == tx_message(&t)));
    let r = m.handle_message(&[7; 32], &getdata_message(2, &[4; 32]), &mut pool, &db, &heights, 1);
    assert!(matches!(r, Reaction::Reply(v) if v == block_message(&b)));
    let r = m.handle_message(&[7; 32], &getdata_message(2, &[5; 32]), &mut pool, &db, &heights, 1);
    assert!(matches!(r, Reaction::Unknown));
    let r = m.handle_message(&[7; 32], &block_message(&b), &mut pool, &db, &heights, 1);
    assert!(matches!(r, Reaction::AddBlock(x) if x.txs.is_empty()));
    let r = m.handle_message(&[7; 32], &headers_message(&vec![]), &mut pool, &db, &heights, 1);
    assert!(matches!(r, Reaction::Nothing));
    let some = headers_message(&vec![header(1)]);
    let r = m.handle_message(&[7; 32], &some, &mut pool, &db, &heights, 1);
    assert!(matches!(r, Reaction::TryHeaders(v) if v.len() == 1));
    let told = addr_message(&vec!["a:1".to_string()]);
    let r = m.handle_message(&[7; 32], &told, &mut pool, &db, &heights, 1);
    assert!(matches!(r, Reaction::Nothing));
    let r = m.handle_message(&[7; 32], &getaddr_message(), &mut pool, &db, &heights, 1);
    let known = addr_message(&vec!["seed:1".to_string(), "a:1".to_string()]);
    assert!(matches!(r, Reaction::Reply(v) if v == known));
    let mut ping = MSG_PING.to_le_bytes().to_vec();
    ping.extend_from_slice(&[9; 8]);
    let r = m.handle_message(&[7; 32], &ping, &mut pool, &db, &heights, 1);
    assert!(matches!(r, Reaction::Reply(v) if v == pong_message(&[9; 8])));
    let mut walk = MSG_GETHEADERS.to_le_bytes().to_vec();
    walk.extend_from_slice(&[2; 36]);
    let r = m.handle_message(&[7; 32], &walk, &mut pool, &db, &heights, 1);
    assert!(matches!(r, Reaction::FindHeaders(a, b) if a == [2; 32] && b == [0; 32]));
    let r = m.handle_message(&[7; 32], &[9], &mut pool, &db, &heights, 1);
    assert!(matches!(r, Reaction::Refused(MessageError::Refused(_))));
    let r = m.handle_message(&[7; 32], &ping[..8], &mut pool, &db, &heights, 1);
    assert!(matches!(r, Reaction::Refused(MessageError::Truncated)));
    for _ in 0..MAX_PENDING_INV {
        m.receive(&[7; 32], &inv_message(2, &[4; 32]));
    }
    let inv = inv_message(2, &[4; 32]);
    let r = m.handle_message(&[7; 32], &inv, &mut pool, &db, &heights, 1);
    assert!(matches!(r, Reaction::Flooded));
}
