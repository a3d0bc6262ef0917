use rust_backend::eve_api::{
    collect_pages, metadata_from, order_metadata, orders_url, read_page_count, EveApiClient,
    FetchStep, PageSchedule, PermitPool,
    FetchCause, FetchError, Header, PageFault, TokenData, TokenResponse, PAGE_DELAY_MILLIS,
    PAGE_PERMITS, PAGE_TIMEOUT_SECS,
};
use rust_backend::eve_service::EveService;
use rust_backend::manager::{CycleStep, Manager};
use rust_backend::market::order::{Order, Orders};
use rust_backend::number::{format_u64, parse_u64, push_decimal};
use rust_backend::pathfinding::models::{
    blank_field, node_kind, optional_u64, BadNumber, Connection, Location,
};

fn order(order_id: u64) -> Order {
    Order {
        duration: 30,
        is_buy_order: true,
        issued: 1_700_000_000,
        location_id: 60003760,
        min_volume: 1,
        order_id,
        price: 500,
        range: String::from("5"),
        system_id: 30000142,
        type_id: 34,
        volume_remain: 10,
        volume_total: 20,
    }
}

fn ids(orders: &[Order]) -> Vec<u64> {
    orders.iter().map(|o| o.order_id).collect()
}

fn client(kept: Option<TokenData>) -> EveApiClient {
    EveApiClient::new(
        String::from("abc123"),
        String::from("hidden"),
        String::from("90000001"),
        String::from("http://localhost:8080/oauth_callback"),
        kept,
    )
}

fn text(s: &str) -> Header {
    Header::Text(String::from(s))
}

#[test]
fn limits_of_the_page_requests() {
    assert_eq!(PAGE_PERMITS, 10);
    assert_eq!(PAGE_DELAY_MILLIS, 20);
    assert_eq!(PAGE_TIMEOUT_SECS, 30);
}

#[test]
fn authorization_url_names_client_redirect_and_scopes() {
    let expected = "https://login.eveonline.com/v2/oauth/authorize/?response_type=code&client_id=abc123&redirect_uri=http://localhost:8080/oauth_callback&scope=esi-assets.read_assets.v1%20esi-location.read_location.v1%20esi-location.read_online.v1%20esi-ui.open_window.v1%20esi-ui.write_waypoint.v1";
    assert_eq!(client(None).get_authorization_url(), expected);
    assert_eq!(EveService::new(client(None)).get_authorization_url(), expected);
    assert_eq!(Manager::new(EveService::new(client(None))).get_authorization_url(), expected);
}

#[test]
fn client_without_a_kept_token_holds_none() {
    let c = client(None);
    assert_eq!(c.get_access_token(), None);
    assert_eq!(c.expires_at, None);
    assert_eq!(c.client_id, "abc123");
    assert_eq!(c.client_secret, "hidden");
    assert_eq!(c.character_id, "90000001");
}

#[test]
fn client_with_a_kept_token_holds_it() {
    let kept = TokenData {
        access_token: String::from("tok"),
        refresh_token: String::from("ref"),
        expires_at: 77,
    };
    let c = client(Some(kept));
    assert_eq!(c.get_access_token(), Some(String::from("tok")));
    assert_eq!(c.expires_at, Some(77));
}

#[test]
fn token_is_due_only_after_it_ran_out() {
    let kept = TokenData {
        access_token: String::from("tok"),
        refresh_token: String::from("ref"),
        expires_at: 100,
    };
    let c = client(Some(kept));
    assert!(!c.needs_refresh(99));
    assert!(!c.needs_refresh(100));
    assert!(c.needs_refresh(101));
    let none = client(None);
    assert!(!none.needs_refresh(0));
    assert!(none.needs_refresh(1));
}

#[test]
fn token_runs_out_expires_in_after_now() {
    let response = TokenResponse {
        access_token: String::from("a"),
        refresh_token: String::from("r"),
        expires_in: 1200,
    };
    let token = TokenData::from_response(response, 1_700_000_000);
    assert_eq!(token.access_token, "a");
    assert_eq!(token.refresh_token, "r");
    assert_eq!(token.expires_at, 1_700_001_200);
    let late = TokenData::from_response(
        TokenResponse {
            access_token: String::from("a"),
            refresh_token: String::from("r"),
            expires_in: u64::MAX,
        },
        5,
    );
    assert_eq!(late.expires_at, u64::MAX);
}

#[test]
fn installed_token_is_the_one_held() {
    let mut c = client(None);
    let token = TokenData {
        access_token: String::from("new"),
        refresh_token: String::from("r"),
        expires_at: 900,
    };
    c.install_token(&token);
    assert_eq!(c.get_access_token(), Some(String::from("new")));
    assert_eq!(c.expires_at, Some(900));
    assert_eq!(c.client_id, "abc123");
    assert!(!c.needs_refresh(900));
}

#[test]
fn page_count_is_read_from_decimal_digits() {
    assert_eq!(parse_u64("12"), Some(12));
    assert_eq!(parse_u64("0"), Some(0));
    assert_eq!(parse_u64("007"), Some(7));
    assert_eq!(parse_u64("+7"), Some(7));
    assert_eq!(parse_u64("18446744073709551615"), Some(u64::MAX));
}

#[test]
fn page_count_agrees_with_the_standard_parser() {
    for s in ["", "+", "-", "1", "+1", "-1", "++1", "1+", " 1", "1 ", "0x10", "99999999999999999999", "18446744073709551616", "000000000000000000000001", "1_000", "٣"] {
        assert_eq!(parse_u64(s), s.parse::<u64>().ok());
    }
}

#[test]
fn page_count_is_refused_where_it_is_no_number() {
    assert_eq!(parse_u64(""), None);
    assert_eq!(parse_u64("+"), None);
    assert_eq!(parse_u64("-1"), None);
    assert_eq!(parse_u64("1a"), None);
    assert_eq!(parse_u64(" 1"), None);
    assert_eq!(parse_u64("１２"), None);
    assert_eq!(parse_u64("18446744073709551616"), None);
}

#[test]
fn page_count_header_errors() {
    assert_eq!(read_page_count(&Header::Missing), Err(FetchCause::PagesMissing));
    assert_eq!(read_page_count(&Header::Unreadable), Err(FetchCause::PagesUnreadable));
    assert_eq!(read_page_count(&text("many")), Err(FetchCause::PagesMalformed));
    assert_eq!(read_page_count(&text("3")), Ok(3));
    assert_eq!(read_page_count(&text("1")), Ok(1));
    assert_eq!(read_page_count(&text("18446744073709551615")), Ok(u64::MAX));
}

#[test]
fn a_page_count_of_zero_is_malformed() {
    assert_eq!(read_page_count(&text("0")), Err(FetchCause::PagesMalformed));
    assert_eq!(read_page_count(&text("+0")), Err(FetchCause::PagesMalformed));
    assert_eq!(read_page_count(&text("000")), Err(FetchCause::PagesMalformed));
    let date = text("Wed, 18 Feb 2015 23:16:09 GMT");
    assert_eq!(order_metadata(&text("0"), &date), Err(FetchCause::PagesMalformed));
    assert_eq!(order_metadata(&text("1"), &date), Ok((1, 1424301369)));
    assert_eq!(metadata_from(&text("0"), &date, Some(5)), Err(FetchCause::PagesMalformed));
}

#[test]
fn metadata_gives_pages_and_deadline() {
    let got = order_metadata(&text("4"), &text("Wed, 18 Feb 2015 23:16:09 GMT"));
    assert_eq!(got, Ok((4, 1424301369)));
}

#[test]
fn metadata_deadline_respects_the_offset() {
    let got = order_metadata(&text("1"), &text("Tue, 2 Jan 2024 03:04:05 +0200"));
    assert_eq!(got, Ok((1, 1704157445)));
}

#[test]
fn metadata_errors_name_the_header() {
    let date = text("Wed, 18 Feb 2015 23:16:09 GMT");
    assert_eq!(order_metadata(&Header::Missing, &date), Err(FetchCause::PagesMissing));
    assert_eq!(order_metadata(&Header::Unreadable, &date), Err(FetchCause::PagesUnreadable));
    assert_eq!(order_metadata(&text("x"), &date), Err(FetchCause::PagesMalformed));
    assert_eq!(order_metadata(&text("2"), &Header::Missing), Err(FetchCause::ExpiryMissing));
    assert_eq!(order_metadata(&text("2"), &Header::Unreadable), Err(FetchCause::ExpiryUnreadable));
    assert_eq!(order_metadata(&text("2"), &text("tomorrow")), Err(FetchCause::ExpiryMalformed));
    assert_eq!(order_metadata(&text("2"), &text("")), Err(FetchCause::ExpiryMalformed));
    assert_eq!(order_metadata(&text("2"), &text("2")), Err(FetchCause::ExpiryMalformed));
}

#[test]
fn page_count_is_looked_at_first() {
    assert_eq!(order_metadata(&Header::Missing, &Header::Missing), Err(FetchCause::PagesMissing));
    assert_eq!(metadata_from(&text("x"), &text("d"), None), Err(FetchCause::PagesMalformed));
}

#[test]
fn metadata_from_takes_the_date_as_read() {
    assert_eq!(metadata_from(&text("9"), &text("d"), Some(55)), Ok((9, 55)));
    assert_eq!(metadata_from(&text("9"), &text("d"), None), Err(FetchCause::ExpiryMalformed));
    assert_eq!(metadata_from(&text("9"), &Header::Missing, Some(55)), Err(FetchCause::ExpiryMissing));
    assert_eq!(
        metadata_from(&text("9"), &Header::Unreadable, Some(55)),
        Err(FetchCause::ExpiryUnreadable)
    );
}

#[test]
fn pages_are_joined_in_page_order() {
    let pages = vec![Ok(vec![order(1), order(2)]), Ok(vec![]), Ok(vec![order(3)])];
    let listing = collect_pages(pages).unwrap();
    assert_eq!(ids(&listing), vec![1, 2, 3]);
    assert_eq!(listing[0], order(1));
}

#[test]
fn no_pages_give_an_empty_listing() {
    assert_eq!(collect_pages(vec![]), Ok(vec![]));
}

#[test]
fn one_failed_page_discards_the_listing() {
    let pages = vec![
        Ok(vec![order(1)]),
        Err(PageFault::Status),
        Ok(vec![order(3)]),
        Err(PageFault::Body),
    ];
    assert_eq!(
        collect_pages(pages),
        Err(FetchCause::Page { page: 2, fault: PageFault::Status })
    );
    assert_eq!(
        collect_pages(vec![Err(PageFault::Transport)]),
        Err(FetchCause::Page { page: 1, fault: PageFault::Transport })
    );
    assert_eq!(
        collect_pages(vec![Ok(vec![order(9)]), Err(PageFault::Body), Err(PageFault::Task)]),
        Err(FetchCause::Page { page: 2, fault: PageFault::Body })
    );
    assert_eq!(
        collect_pages(vec![Ok(vec![]), Ok(vec![]), Err(PageFault::Task)]),
        Err(FetchCause::Page { page: 3, fault: PageFault::Task })
    );
}

#[test]
fn failed_refresh_leaves_the_batch_untouched() {
    let mut batch = Orders::new();
    batch.insert(7, vec![order(1)], 10);
    let failed = EveService::fold_refresh(&mut batch, 7, &Err(FetchCause::Probe));
    assert_eq!(failed, Some(FetchError { region: 7, cause: FetchCause::Probe }));
    assert_eq!(ids(&batch.orders()), vec![1]);
    assert_eq!(batch.expired_regions_at(10), vec![7, 10000033]);
}

#[test]
fn successful_refresh_is_stored() {
    let mut batch = Orders::new();
    batch.insert(7, vec![order(1)], 10);
    let failed = EveService::fold_refresh(&mut batch, 7, &Ok((vec![order(2), order(3)], 99)));
    assert_eq!(failed, None);
    assert_eq!(ids(&batch.orders()), vec![2, 3]);
    assert!(!batch.expired_regions_at(98).contains(&7));
}

#[test]
fn one_failure_does_not_block_the_other_regions() {
    let regions = vec![7, 8, 9];
    let outcomes = vec![
        Ok((vec![order(1)], 100)),
        Err(FetchCause::Page { page: 2, fault: PageFault::Transport }),
        Ok((vec![order(3)], 200)),
    ];
    let (batch, failed) = EveService::updated_orders(&regions, &outcomes);
    assert_eq!(ids(&batch.orders()), vec![1, 3]);
    assert!(batch.contains_region(7) && !batch.contains_region(8) && batch.contains_region(9));
    assert_eq!(
        failed,
        vec![FetchError {
            region: 8,
            cause: FetchCause::Page { page: 2, fault: PageFault::Transport }
        }]
    );
}

#[test]
fn cycle_stops_on_shutdown_and_refreshes_otherwise() {
    let mut manager = Manager::new(EveService::new(client(None)));
    assert!(matches!(manager.plan_cycle(true, 0), CycleStep::Stop));
    match manager.plan_cycle(false, 0) {
        CycleStep::Refresh(regions) => assert_eq!(regions, vec![10000033]),
        CycleStep::Stop => panic!("no shutdown was asked for"),
    }
    let mut batch = Orders::new();
    batch.insert(10000033, vec![order(1)], 50);
    manager.apply_refresh(batch);
    match manager.plan_cycle(false, 49) {
        CycleStep::Refresh(regions) => assert!(regions.is_empty()),
        CycleStep::Stop => panic!("no shutdown was asked for"),
    }
    match manager.plan_cycle(false, 50) {
        CycleStep::Refresh(regions) => assert_eq!(regions, vec![10000033]),
        CycleStep::Stop => panic!("no shutdown was asked for"),
    }
    assert_eq!(ids(&manager.orders()), vec![1]);
}

#[test]
fn manager_remembers_the_location() {
    let mut manager = Manager::new(EveService::new(client(None)));
    assert_eq!(manager.location(), None);
    let here = Location { solar_system_id: 30000142, station_id: Some(60003760), structure_id: None };
    manager.record_location(here);
    assert_eq!(manager.location(), Some(here));
    assert!(here.is_docked());
    let space = Location { solar_system_id: 30000142, station_id: None, structure_id: None };
    assert!(!space.is_docked());
    let gate = Connection { stargate_id: 50001248, destination_id: 50001249 };
    assert_eq!(gate.destination_id, 50001249);
}

#[test]
fn no_more_than_ten_permits_are_out() {
    let mut pool = PermitPool::for_pages();
    for expected in 1..=10 {
        assert!(pool.try_acquire());
        assert_eq!(pool.in_flight(), expected);
    }
    assert!(!pool.try_acquire());
    assert_eq!(pool.in_flight(), 10);
    pool.release();
    assert_eq!(pool.in_flight(), 9);
    assert!(pool.try_acquire());
    assert!(!pool.try_acquire());
    assert_eq!(pool.in_flight(), 10);
}

#[test]
fn releasing_an_idle_pool_changes_nothing() {
    let mut pool = PermitPool::new(2);
    pool.release();
    assert_eq!(pool.in_flight(), 0);
    assert!(pool.try_acquire());
    assert!(pool.try_acquire());
    assert!(!pool.try_acquire());
    let mut none = PermitPool::new(0);
    assert!(!none.try_acquire());
}

#[test]
fn stations_and_stargates_are_the_nodes_kept() {
    assert_eq!(node_kind(15), Some(true));
    assert_eq!(node_kind(10), Some(false));
    assert_eq!(node_kind(0), None);
    assert_eq!(node_kind(5), None);
    assert_eq!(node_kind(16), None);
}

#[test]
fn optional_number_fields() {
    assert_eq!(optional_u64(None), Ok(None));
    assert_eq!(optional_u64(Some("")), Ok(None));
    assert_eq!(optional_u64(Some("None")), Ok(None));
    assert_eq!(optional_u64(Some("30000142")), Ok(Some(30000142)));
    assert_eq!(optional_u64(Some("none")), Err(BadNumber));
    assert_eq!(optional_u64(Some("NoneX")), Err(BadNumber));
    assert_eq!(optional_u64(Some("Nine")), Err(BadNumber));
    assert_eq!(optional_u64(Some("1.5")), Err(BadNumber));
    assert!(blank_field("") && blank_field("None") && !blank_field("Non") && !blank_field("0"));
}

#[test]
fn numbers_are_written_in_decimal() {
    assert_eq!(format_u64(0), "0");
    assert_eq!(format_u64(7), "7");
    assert_eq!(format_u64(10), "10");
    assert_eq!(format_u64(10000033), "10000033");
    assert_eq!(format_u64(u64::MAX), "18446744073709551615");
    let mut text = String::from("page=");
    push_decimal(&mut text, 305);
    assert_eq!(text, "page=305");
}

#[test]
fn written_numbers_are_read_back() {
    for n in [0u64, 1, 9, 10, 99, 100, 12345, u64::MAX - 1, u64::MAX] {
        assert_eq!(parse_u64(&format_u64(n)), Some(n));
        assert_eq!(format_u64(n), n.to_string());
    }
}

#[test]
fn addresses_of_listing_pages_and_of_the_location() {
    assert_eq!(
        orders_url(10000033, 1),
        "https://esi.evetech.net/latest/markets/10000033/orders/?datasource=tranquility&order_type=all&page=1"
    );
    assert_eq!(
        orders_url(10000002, 27),
        "https://esi.evetech.net/latest/markets/10000002/orders/?datasource=tranquility&order_type=all&page=27"
    );
    assert_eq!(
        client(None).location_url(),
        "https://esi.evetech.net/latest/characters/90000001/location/"
    );
}

#[test]
fn location_in_words() {
    let docked = Location { solar_system_id: 30000142, station_id: Some(60003760), structure_id: None };
    assert_eq!(
        docked.describe(),
        "Current location: Solar System ID: 30000142, Station ID: 60003760, Structure ID: None"
    );
    let odd = Location { solar_system_id: -5, station_id: None, structure_id: Some(i32::MIN) };
    assert_eq!(
        odd.describe(),
        "Current location: Solar System ID: -5, Station ID: None, Structure ID: -2147483648"
    );
}

#[test]
fn signed_numbers_are_written_with_their_sign() {
    for n in [0i32, 1, -1, 42, -42, i32::MAX, i32::MIN] {
        let mut text = String::new();
        rust_backend::number::push_signed(&mut text, n);
        assert_eq!(text, n.to_string());
    }
}

#[test]
fn pages_are_issued_in_order_under_ten_permits() {
    let mut schedule = PageSchedule::new(12);
    for page in 1..=10 {
        assert_eq!(schedule.next_step(), FetchStep::Issue(page));
        assert_eq!(schedule.in_flight(), page as usize);
    }
    assert_eq!(schedule.next_step(), FetchStep::Wait);
    assert_eq!(schedule.next_step(), FetchStep::Wait);
    assert_eq!(schedule.in_flight(), 10);
    schedule.page_sent();
    assert_eq!(schedule.in_flight(), 9);
    assert_eq!(schedule.next_step(), FetchStep::Issue(11));
    assert_eq!(schedule.next_step(), FetchStep::Wait);
    schedule.page_sent();
    schedule.page_sent();
    assert_eq!(schedule.next_step(), FetchStep::Issue(12));
    assert_eq!(schedule.next_step(), FetchStep::Join);
    assert_eq!(schedule.in_flight(), 9);
    for _ in 0..20 {
        schedule.page_sent();
    }
    assert_eq!(schedule.in_flight(), 0);
    assert_eq!(schedule.next_step(), FetchStep::Join);
}

#[test]
fn a_listing_without_pages_is_joined_at_once() {
    let mut schedule = PageSchedule::new(0);
    assert_eq!(schedule.next_step(), FetchStep::Join);
    assert_eq!(schedule.in_flight(), 0);
}
