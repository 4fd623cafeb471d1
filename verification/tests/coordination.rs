use scopesentry::control::{add_task, dispatch_to_nodes, plan_task, TaskError};
use scopesentry::models::{ParamEntry, TaskAddRequest};
use scopesentry::persist::{AssetRecord, AssetStore, SubdomainStore, TaskStore};
use scopesentry::queue::{DrainRun, NodeQueue, TargetQueue};
use scopesentry::registry::{NodeEntry, Registry};
use scopesentry::worker::{
    derive_probe, subdomain_candidates, CompletionSet, CompletionTime, ProgressEntry,
    ProgressStore,
};

fn request(name: &str, target: &str, node: Vec<&str>, all_node: bool) -> TaskAddRequest {
    TaskAddRequest {
        name: name.to_string(),
        target: target.to_string(),
        ignore: String::new(),
        node: node.into_iter().map(|s| s.to_string()).collect(),
        allNode: all_node,
        scheduledTasks: false,
        template: "t1".to_string(),
        duplicates: false,
        cycleType: None,
        hour: None,
        minute: None,
        day: None,
    }
}

#[test]
fn add_task_empty_name_is_rejected_without_side_effects() {
    let mut tasks = TaskStore::new();
    let mut pool = TargetQueue::new();
    let req = request("   ", "example.com", vec!["n1"], false);
    let r = add_task(
        &mut tasks,
        &mut pool,
        &req,
        &Vec::new(),
        None,
        "id1".to_string(),
        "t0".to_string(),
    );
    assert!(matches!(r, Err(TaskError::InvalidArgs)));
    assert_eq!(tasks.tasks.len(), 0);
    assert_eq!(pool.items.len(), 0);
}

#[test]
fn add_task_no_nodes_is_rejected_without_side_effects() {
    let mut tasks = TaskStore::new();
    let mut pool = TargetQueue::new();
    let req = request("scan1", "example.com", vec![], false);
    let r = add_task(
        &mut tasks,
        &mut pool,
        &req,
        &Vec::new(),
        None,
        "id1".to_string(),
        "t0".to_string(),
    );
    assert!(matches!(r, Err(TaskError::InvalidArgs)));
    assert_eq!(tasks.tasks.len(), 0);
    assert_eq!(pool.items.len(), 0);
}

#[test]
fn add_task_persists_record_and_queues_targets() {
    let mut tasks = TaskStore::new();
    let mut pool = TargetQueue::new();
    let req = request("scan1", "10.0.0.0/30\nexample.com", vec!["n1"], false);
    let plan = add_task(
        &mut tasks,
        &mut pool,
        &req,
        &Vec::new(),
        None,
        "id1".to_string(),
        "t0".to_string(),
    )
    .unwrap();
    assert_eq!(tasks.tasks.len(), 1);
    let rec = &tasks.tasks[0];
    assert_eq!(rec.name, "scan1");
    assert_eq!(rec.target, "10.0.0.0/30\nexample.com");
    assert_eq!(rec.task_num, 3);
    assert_eq!(rec.status, 1);
    assert_eq!(rec.end_time, "");
    assert_eq!(rec.task_type, "scan");
    assert_eq!(pool.items, vec!["10.0.0.1", "10.0.0.2", "example.com"]);
    assert_eq!(plan.dispatch.ID, "id1");
    assert_eq!(plan.dispatch.TaskName, "scan1");
    assert!(!plan.dispatch.IsStart);
    assert_eq!(plan.nodes, vec!["n1"]);
}

#[test]
fn add_task_applies_ignore_rules() {
    let mut tasks = TaskStore::new();
    let mut pool = TargetQueue::new();
    let mut req = request("scan1", "10.0.0.1-10.0.0.3", vec!["n1"], false);
    req.ignore = "10.0.0.2".to_string();
    add_task(
        &mut tasks,
        &mut pool,
        &req,
        &Vec::new(),
        None,
        "id1".to_string(),
        "t0".to_string(),
    )
    .unwrap();
    assert_eq!(pool.items, vec!["10.0.0.1", "10.0.0.3"]);
    assert_eq!(tasks.tasks[0].task_num, 2);
}

#[test]
fn node_queue_hands_out_oldest_first() {
    let req1 = request("scan1", "example.com", vec!["n1"], false);
    let req2 = request("scan2", "example.com", vec!["n1"], false);
    let p1 = plan_task(&req1, &Vec::new(), None, "id1".to_string(), "t0".to_string()).unwrap();
    let p2 = plan_task(&req2, &Vec::new(), None, "id2".to_string(), "t1".to_string()).unwrap();
    let mut q = NodeQueue::new();
    q.enqueue(p1.dispatch);
    q.enqueue(p2.dispatch);
    assert_eq!(q.dequeue().unwrap().ID, "id1");
    assert_eq!(q.dequeue().unwrap().ID, "id2");
    assert!(q.dequeue().is_none());
}

#[test]
fn plan_task_all_node_unions_online() {
    let req = request("scan1", "example.com", vec!["n1"], true);
    let online = vec!["n1".to_string(), "n2".to_string()];
    let plan = plan_task(&req, &online, None, "id".to_string(), "t0".to_string()).unwrap();
    assert_eq!(plan.nodes, vec!["n1", "n2"]);
}

#[test]
fn plan_task_keeps_template_params() {
    let req = request("scan1", "example.com", vec!["n1"], false);
    let params = vec![ParamEntry {
        module: "SubdomainScan".to_string(),
        plugin: "basic".to_string(),
        args: "-d 5".to_string(),
    }];
    let plan = plan_task(&req, &Vec::new(), Some(params), "id".to_string(), "t0".to_string())
        .unwrap();
    assert_eq!(plan.dispatch.Parameters.len(), 1);
    assert_eq!(plan.dispatch.Parameters[0].module, "SubdomainScan");
}

#[test]
fn dispatch_copies_to_every_node_queue() {
    let req = request("scan1", "example.com", vec!["n1", "n2"], false);
    let plan = plan_task(&req, &Vec::new(), None, "id".to_string(), "t0".to_string()).unwrap();
    let mut queues = vec![NodeQueue::new(), NodeQueue::new()];
    dispatch_to_nodes(&mut queues, &plan.dispatch);
    assert_eq!(queues[0].items.len(), 1);
    assert_eq!(queues[1].items.len(), 1);
    assert_eq!(queues[0].items[0].ID, "id");
    assert_eq!(queues[1].items[0].TaskName, "scan1");
}

#[test]
fn registry_lists_only_state_one() {
    let mut reg = Registry::new();
    reg.register_node("n1", "t1");
    reg.register_node("n2", "t1");
    reg.nodes.push(NodeEntry {
        name: "n3".to_string(),
        state: "0".to_string(),
        update_time: "t1".to_string(),
    });
    let online = reg.list_online_nodes();
    assert_eq!(online, vec!["n1", "n2"]);
}

#[test]
fn registry_never_expires_stale_heartbeats() {
    let mut reg = Registry::new();
    reg.register_node("n1", "t-ancient");
    // no further heartbeat arrives; the node stays listed
    let online = reg.list_online_nodes();
    assert_eq!(online, vec!["n1"]);
    reg.heartbeat("n2", "t-now");
    let online = reg.list_online_nodes();
    assert_eq!(online, vec!["n1", "n2"]);
    assert_eq!(reg.nodes.len(), 2);
}

#[test]
fn heartbeat_refreshes_in_place() {
    let mut reg = Registry::new();
    reg.register_node("n1", "t1");
    reg.heartbeat("n1", "t2");
    assert_eq!(reg.nodes.len(), 1);
    assert_eq!(reg.nodes[0].update_time, "t2");
    assert_eq!(reg.nodes[0].state, "1");
}

#[test]
fn drain_is_exactly_once_across_workers() {
    let targets: Vec<String> = vec!["a", "b", "c", "d", "e"]
        .into_iter()
        .map(|s| s.to_string())
        .collect();
    let mut run = DrainRun::new(targets.clone(), 2);
    let mut w = 0;
    while run.step(w).is_some() {
        w = 1 - w;
    }
    assert_eq!(run.queue.items.len(), 0);
    let mut all: Vec<String> = run.processed.iter().flatten().cloned().collect();
    all.sort();
    assert_eq!(all, targets);
    // both workers took part and no target was seen twice
    assert!(!run.processed[0].is_empty());
    assert!(!run.processed[1].is_empty());
}

#[test]
fn drain_step_on_empty_pool_reports_idle() {
    let mut run = DrainRun::new(Vec::new(), 1);
    assert!(run.step(0).is_none());
    assert_eq!(run.processed[0].len(), 0);
}

#[test]
fn all_node_union_deduplicates_online_names() {
    let req = request("scan1", "example.com", vec!["n1"], true);
    let online = vec!["n1".to_string(), "n2".to_string(), "n2".to_string()];
    let plan = plan_task(&req, &online, None, "id".to_string(), "t0".to_string()).unwrap();
    assert_eq!(plan.nodes, vec!["n1", "n2"]);
}

#[test]
fn asset_upsert_keeps_one_record_per_pair() {
    let mut store = AssetStore::new();
    let first = AssetRecord {
        url: "http://h".to_string(),
        host: "h".to_string(),
        port: 80,
        service: "http".to_string(),
        asset_type: "http".to_string(),
        time: "t1".to_string(),
        task_name: "scan1".to_string(),
    };
    let mut second = first.clone();
    second.time = "t2".to_string();
    second.url = "http://h/".to_string();
    store.upsert(first);
    store.upsert(second);
    assert_eq!(store.records.len(), 1);
    assert_eq!(store.records[0].time, "t2");
    assert_eq!(store.records[0].url, "http://h/");
}

#[test]
fn asset_upsert_distinguishes_ports() {
    let mut store = AssetStore::new();
    let a = AssetRecord {
        url: "http://h".to_string(),
        host: "h".to_string(),
        port: 80,
        service: "http".to_string(),
        asset_type: "http".to_string(),
        time: "t1".to_string(),
        task_name: "scan1".to_string(),
    };
    let mut b = a.clone();
    b.port = 443;
    store.upsert(a);
    store.upsert(b);
    assert_eq!(store.records.len(), 2);
}

#[test]
fn subdomain_records_are_never_deduplicated() {
    let mut store = SubdomainStore::new();
    let hosts = vec!["www.example.com".to_string()];
    store.append_discoveries(&hosts, "t1", "scan1");
    store.append_discoveries(&hosts, "t2", "scan1");
    assert_eq!(store.records.len(), 2);
    assert_eq!(store.records[0].host, store.records[1].host);
}

#[test]
fn completion_set_holds_each_target_once() {
    let mut done = CompletionSet::new();
    done.mark_done("a");
    done.mark_done("b");
    done.mark_done("a");
    assert_eq!(done.done.len(), 2);
}

#[test]
fn completion_time_last_writer_wins() {
    let mut cell = CompletionTime::new();
    cell.set_time("t1");
    cell.set_time("t2");
    assert_eq!(cell.value.as_deref(), Some("t2"));
}

#[test]
fn subdomain_candidates_for_domain() {
    let c = subdomain_candidates("example.com");
    assert_eq!(
        c,
        vec![
            "www.example.com",
            "test.example.com",
            "dev.example.com",
            "admin.example.com",
            "api.example.com"
        ]
    );
}

#[test]
fn subdomain_candidates_skip_non_domains() {
    assert!(subdomain_candidates("10.0.0.1").is_empty());
    assert!(subdomain_candidates("https://example.com").is_empty());
    assert!(subdomain_candidates("2001:db8::1").is_empty());
    assert!(subdomain_candidates("::1").is_empty());
}

#[test]
fn subdomain_candidates_for_colon_bearing_non_ip() {
    // a colon does not make a target an IP address: a non-parsing name
    // still gets the full candidate list
    let c = subdomain_candidates("host:8080");
    assert_eq!(c.len(), 5);
    assert_eq!(c[0], "www.host:8080");
}

#[test]
fn derive_probe_for_url() {
    let p = derive_probe("https://example.com/x").unwrap();
    assert_eq!(p.url, "https://example.com/x");
    assert_eq!(p.host, "example.com");
    assert_eq!(p.port, 443);
    assert_eq!(p.service, "https");
}

#[test]
fn derive_probe_keeps_explicit_port() {
    let p = derive_probe("http://example.com:8080/x").unwrap();
    assert_eq!(p.port, 8080);
    assert_eq!(p.service, "http");
}

#[test]
fn derive_probe_for_bare_host() {
    let p = derive_probe("example.com").unwrap();
    assert_eq!(p.url, "http://example.com");
    assert_eq!(p.host, "example.com");
    assert_eq!(p.port, 80);
    assert_eq!(p.service, "http");
}

#[test]
fn derive_probe_rejects_hostless_url() {
    assert!(derive_probe("data://").is_none());
}

#[test]
fn pipeline_records_progress_results_and_completion() {
    let mut progress = ProgressStore::new();
    let mut subs = SubdomainStore::new();
    let mut assets = AssetStore::new();
    let mut done = CompletionSet::new();
    let entry = ProgressEntry {
        task_id: "id1".to_string(),
        target: "example.com".to_string(),
        node: "n1".to_string(),
        target_handler_start: "t0".to_string(),
        subdomain_scan_start: "t1".to_string(),
        subdomain_scan_end: "t2".to_string(),
        asset_mapping_start: "t3".to_string(),
        asset_mapping_end: "t4".to_string(),
    };
    let found = vec!["www.example.com".to_string()];
    let probe = Some(AssetRecord {
        url: "http://example.com".to_string(),
        host: "example.com".to_string(),
        port: 80,
        service: "http".to_string(),
        asset_type: "http".to_string(),
        time: "t4".to_string(),
        task_name: "scan1".to_string(),
    });
    scopesentry::worker::process_target(
        &mut progress,
        &mut subs,
        &mut assets,
        &mut done,
        entry,
        "scan1",
        &found,
        "t2",
        probe,
        "example.com",
    );
    assert_eq!(progress.entries.len(), 1);
    assert_eq!(subs.records.len(), 1);
    assert_eq!(assets.records.len(), 1);
    assert_eq!(done.done, vec!["example.com"]);
}
