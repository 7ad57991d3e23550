use chainbot::cache::CacheError;
use chainbot::cache::ChainCache;
use chainbot::cache::ChainStore;
use chainbot::cache::TableStore;
use chainbot::settings::Constants;
use chainbot::settings::Database;
use chainbot::settings::Settings;
use chainbot::settings::Telegram;

fn settings(cycle: u8) -> Settings {
    Settings {
        telegram: Telegram { token: String::new(), name: String::new() },
        constants: Constants { divisor: 1, cache_cycle: cycle },
        database: Database { options: String::new() },
    }
}

fn tok(s: &str) -> Option<String> {
    Some(s.to_string())
}

#[test]
fn get_chain_creates_and_persists_a_fresh_model() {
    let mut cache = ChainCache::new(&settings(2), TableStore::new());
    assert_eq!(cache.store_ref().write_count(), 0);
    let _ = cache.get_chain(1).unwrap();
    assert_eq!(cache.store_ref().write_count(), 1);
    // A second get for the same session is a cache hit: no further write.
    let _ = cache.get_chain(1).unwrap();
    assert_eq!(cache.store_ref().write_count(), 1);
}

#[test]
fn save_chain_flushes_once_per_full_cycle() {
    let cycle: u8 = 2;
    let mut cache = ChainCache::new(&settings(cycle), TableStore::new());
    let _ = cache.get_chain(1).unwrap();
    let base = cache.store_ref().write_count();
    // `cycle` saves are deferred...
    for _ in 0..cycle {
        cache.save_chain(1).unwrap();
        assert_eq!(cache.store_ref().write_count(), base);
    }
    // ...and the `cycle + 1`-th triggers exactly one store write.
    cache.save_chain(1).unwrap();
    assert_eq!(cache.store_ref().write_count(), base + 1);
    // The countdown restarts: the next save is deferred again.
    cache.save_chain(1).unwrap();
    assert_eq!(cache.store_ref().write_count(), base + 1);
}

#[test]
fn save_chain_without_get_chain_is_a_protocol_error() {
    let mut cache = ChainCache::new(&settings(2), TableStore::new());
    let r = cache.save_chain(99);
    assert!(matches!(r, Err(CacheError::Protocol)));
    // No entry was created: a repeat fails the same way.
    let r2 = cache.save_chain(99);
    assert!(matches!(r2, Err(CacheError::Protocol)));
    assert_eq!(cache.store_ref().write_count(), 0);
}

#[test]
fn two_gets_share_one_underlying_model() {
    let mut cache = ChainCache::new(&settings(3), TableStore::new());
    let h1 = cache.get_chain(5).unwrap();
    let h2 = cache.get_chain(5).unwrap();
    let (mut c, wh) = h1.acquire_write();
    c.feed("x y");
    wh.release_write(c);
    let rh = h2.acquire_read();
    let seen = rh.borrow().transition_count(&None, &tok("x"));
    rh.release_read();
    assert_eq!(seen, 1);
}

#[test]
fn get_chain_loads_a_stored_chain() {
    let mut store = TableStore::new();
    store.save_text(8, "(~#2:hi:3)(#2:hi~:3)").unwrap();
    let mut cache = ChainCache::new(&settings(1), store);
    let h = cache.get_chain(8).unwrap();
    let rh = h.acquire_read();
    let seen = rh.borrow().transition_count(&None, &tok("hi"));
    rh.release_read();
    assert_eq!(seen, 3);
}

#[test]
fn get_chain_surfaces_corrupt_stored_text() {
    let mut store = TableStore::new();
    store.save_text(7, "not a chain").unwrap();
    let mut cache = ChainCache::new(&settings(1), store);
    let r = cache.get_chain(7);
    assert!(matches!(r, Err(CacheError::Decode(_))));
    // The failure cached nothing: saving is still a protocol error.
    assert!(matches!(cache.save_chain(7), Err(CacheError::Protocol)));
}

#[test]
fn flush_writes_the_current_chain_text() {
    let mut cache = ChainCache::new(&settings(0), TableStore::new());
    let h = cache.get_chain(3).unwrap();
    let (mut c, wh) = h.acquire_write();
    c.feed("m");
    let expected = c.save();
    wh.release_write(c);
    // With a zero cycle every save flushes immediately.
    cache.save_chain(3).unwrap();
    let loaded = cache.store_ref().load_text(3).unwrap().unwrap();
    assert_eq!(loaded, expected);
}

#[test]
fn file_names_are_decimal_with_suffix() {
    assert_eq!(chainbot::cache::file_name(0), "0.json");
    assert_eq!(chainbot::cache::file_name(42), "42.json");
    assert_eq!(chainbot::cache::file_name(-7), "-7.json");
    assert_eq!(chainbot::cache::file_name(i64::MIN), "-9223372036854775808.json");
}
