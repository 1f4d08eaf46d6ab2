use reconcise::error::Error;
use reconcise::fetch::{FetchStep, Fetcher, Page};
use reconcise::reconcile::{reconcile, Op, Pass, PassStep};
use reconcise::resource::{Server, ServerOutput, ServerSpec};

fn wanted_spec(name: &str) -> ServerSpec {
    ServerSpec { name: name.to_string(), server_type: "cx11".to_string() }
}

fn existing(name: &str, id: i64) -> Server {
    Server {
        spec: wanted_spec(name),
        output: ServerOutput { id, status: "running".to_string() },
    }
}

fn page_of(first_id: i64, count: i64, next_page: Option<i64>) -> Page<Server> {
    let items: Vec<Server> =
        (first_id..first_id + count).map(|i| existing(&format!("srv-{:03}", i), i)).collect();
    Page { items, next_page }
}

#[test]
fn fetcher_starts_at_the_first_page() {
    let f: Fetcher<Server> = Fetcher::new();
    assert_eq!(f.next_page(), None);
}

#[test]
fn pagination_collects_every_page() {
    let mut asked: Vec<Option<i64>> = Vec::new();
    let f: Fetcher<Server> = Fetcher::new();
    asked.push(f.next_page());
    let f = match f.advance(Ok(page_of(0, 10, Some(2)))) {
        FetchStep::More(f) => f,
        _ => panic!("the fetch ended after the first page"),
    };
    asked.push(f.next_page());
    let f = match f.advance(Ok(page_of(10, 10, Some(3)))) {
        FetchStep::More(f) => f,
        _ => panic!("the fetch ended after the second page"),
    };
    asked.push(f.next_page());
    let all = match f.advance(Ok(page_of(20, 4, None))) {
        FetchStep::Done(all) => all,
        _ => panic!("the fetch did not end after the last page"),
    };
    assert_eq!(asked, vec![None, Some(2), Some(3)]);
    assert_eq!(all.len(), 24);
    let ids: Vec<i64> = all.iter().map(|s| s.output.id).collect();
    let expected: Vec<i64> = (0..24).collect();
    assert_eq!(ids, expected);
}

#[test]
fn single_page_ends_the_fetch() {
    let f: Fetcher<Server> = Fetcher::new();
    match f.advance(Ok(page_of(5, 3, None))) {
        FetchStep::Done(all) => {
            let ids: Vec<i64> = all.iter().map(|s| s.output.id).collect();
            assert_eq!(ids, vec![5, 6, 7]);
        }
        _ => panic!("the fetch did not end"),
    }
}

#[test]
fn empty_listing_gives_no_resources() {
    let f: Fetcher<Server> = Fetcher::new();
    match f.advance(Ok(Page { items: Vec::new(), next_page: None })) {
        FetchStep::Done(all) => assert!(all.is_empty()),
        _ => panic!("the fetch did not end"),
    }
}

#[test]
fn fetch_fails_fast_on_second_page() {
    let f: Fetcher<Server> = Fetcher::new();
    let f = match f.advance(Ok(page_of(0, 10, Some(2)))) {
        FetchStep::More(f) => f,
        _ => panic!("the fetch ended after the first page"),
    };
    match f.advance(Err("connection reset".to_string())) {
        FetchStep::Failed(e) => {
            assert_eq!(e, Error::Fetch { cause: "connection reset".to_string() })
        }
        FetchStep::More(_) => panic!("the fetch went on after a failure"),
        FetchStep::Done(_) => panic!("a failed fetch handed out resources"),
    }
}

#[test]
fn fetch_fails_on_first_page() {
    let f: Fetcher<Server> = Fetcher::new();
    match f.advance(Err("unauthorized".to_string())) {
        FetchStep::Failed(e) => assert_eq!(e, Error::Fetch { cause: "unauthorized".to_string() }),
        _ => panic!("a failed fetch did not fail"),
    }
}

#[test]
fn empty_plan_is_done_at_once() {
    let wanted: Vec<ServerSpec> = Vec::new();
    let actual: Vec<Server> = Vec::new();
    let plan = match reconcile(&wanted, &actual) {
        Ok(d) => d,
        Err(e) => panic!("unexpected error: {:?}", e),
    };
    match Pass::begin(plan) {
        PassStep::Done(v) => assert!(v.is_empty()),
        _ => panic!("an empty plan asked for an operation"),
    }
}

#[test]
fn pass_creates_then_destroys_then_syncs() {
    let wanted = vec![wanted_spec("a"), wanted_spec("c"), wanted_spec("e")];
    let actual = vec![existing("b", 1), existing("c", 2), existing("d", 3)];
    let plan = match reconcile(&wanted, &actual) {
        Ok(d) => d,
        Err(e) => panic!("unexpected error: {:?}", e),
    };
    let mut log: Vec<String> = Vec::new();
    let mut step = Pass::begin(plan);
    let mut next_id: i64 = 100;
    let result = loop {
        match step {
            PassStep::Apply(pass) => {
                let outcome = match pass.op() {
                    Op::Create(s) => {
                        log.push(format!("create {}", s.name));
                        next_id += 1;
                        Some(existing(&s.name, next_id))
                    }
                    Op::Destroy(r) => {
                        log.push(format!("destroy {}", r.spec.name));
                        None
                    }
                    Op::Sync(s, r) => {
                        log.push(format!("sync {}", s.name));
                        Some(existing(&s.name, r.output.id))
                    }
                };
                step = pass.advance(Ok(outcome));
            }
            PassStep::Done(v) => break v,
            PassStep::Failed(e) => panic!("unexpected error: {:?}", e),
        }
    };
    assert_eq!(
        log,
        vec![
            "create a".to_string(),
            "create e".to_string(),
            "destroy b".to_string(),
            "destroy d".to_string(),
            "sync c".to_string()
        ]
    );
    assert_eq!(result, vec![existing("a", 101), existing("e", 102), existing("c", 2)]);
}

#[test]
fn destroy_adds_nothing_to_the_result() {
    let wanted: Vec<ServerSpec> = Vec::new();
    let actual = vec![existing("x", 1)];
    let plan = match reconcile(&wanted, &actual) {
        Ok(d) => d,
        Err(e) => panic!("unexpected error: {:?}", e),
    };
    let pass = match Pass::begin(plan) {
        PassStep::Apply(p) => p,
        _ => panic!("no operation was asked for"),
    };
    assert!(matches!(pass.op(), Op::Destroy(r) if r.spec.name == "x"));
    match pass.advance(Ok(Some(existing("ghost", 5)))) {
        PassStep::Done(v) => assert!(v.is_empty()),
        _ => panic!("the pass did not end"),
    }
}

#[test]
fn create_failure_ends_the_pass() {
    let wanted = vec![wanted_spec("a"), wanted_spec("b")];
    let actual = vec![existing("z", 1)];
    let plan = match reconcile(&wanted, &actual) {
        Ok(d) => d,
        Err(e) => panic!("unexpected error: {:?}", e),
    };
    let pass = match Pass::begin(plan) {
        PassStep::Apply(p) => p,
        _ => panic!("no operation was asked for"),
    };
    let pass = match pass.advance(Ok(Some(existing("a", 11)))) {
        PassStep::Apply(p) => p,
        _ => panic!("the pass ended early"),
    };
    assert!(matches!(pass.op(), Op::Create(s) if s.name == "b"));
    match pass.advance(Err("quota exceeded".to_string())) {
        PassStep::Failed(e) => assert_eq!(
            e,
            Error::Create { name: "b".to_string(), cause: "quota exceeded".to_string() }
        ),
        _ => panic!("a failed create did not end the pass"),
    }
}

#[test]
fn destroy_failure_ends_the_pass() {
    let wanted: Vec<ServerSpec> = Vec::new();
    let actual = vec![existing("old", 1)];
    let plan = match reconcile(&wanted, &actual) {
        Ok(d) => d,
        Err(e) => panic!("unexpected error: {:?}", e),
    };
    let pass = match Pass::begin(plan) {
        PassStep::Apply(p) => p,
        _ => panic!("no operation was asked for"),
    };
    match pass.advance(Err("locked".to_string())) {
        PassStep::Failed(e) => {
            assert_eq!(e, Error::Destroy { name: "old".to_string(), cause: "locked".to_string() })
        }
        _ => panic!("a failed destroy did not end the pass"),
    }
}

#[test]
fn sync_failure_ends_the_pass() {
    let wanted = vec![wanted_spec("same")];
    let actual = vec![existing("same", 1)];
    let plan = match reconcile(&wanted, &actual) {
        Ok(d) => d,
        Err(e) => panic!("unexpected error: {:?}", e),
    };
    let pass = match Pass::begin(plan) {
        PassStep::Apply(p) => p,
        _ => panic!("no operation was asked for"),
    };
    assert!(matches!(pass.op(), Op::Sync(s, r) if s.name == "same" && r.output.id == 1));
    match pass.advance(Err("timeout".to_string())) {
        PassStep::Failed(e) => {
            assert_eq!(e, Error::Sync { name: "same".to_string(), cause: "timeout".to_string() })
        }
        _ => panic!("a failed sync did not end the pass"),
    }
}
