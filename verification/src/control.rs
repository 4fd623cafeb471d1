//! Task control plane: validation, target expansion, destination-node
//! selection, the persisted task record, and the dispatch payload fanned
//! out to every destination node's queue.
use crate::expand::{expand_targets, expansion_of, str_eq};
use crate::models::{DispatchTemplate, ParamEntry, TaskAddRequest};
use crate::persist::{TaskRecord, TaskStore};
use crate::queue::{NodeQueue, TargetQueue};
use crate::strutil::trim_spec;
use vstd::prelude::*;

verus! {

/// Why a task-creation request was rejected.
#[derive(Debug)]
pub enum TaskError {
    InvalidArgs,
}

/// A request is invalid exactly when its name is blank, or it names no
/// node while not asking for all nodes.
pub open spec fn invalid_request(req: &TaskAddRequest) -> bool {
    trim_spec(req.name@).len() == 0 || (req.node@.len() == 0 && !req.allNode)
}

/// Whether a request would be rejected, for callers that validate before
/// reading or writing anything.
pub fn is_invalid_request(req: &TaskAddRequest) -> (r: bool)
    ensures
        r == invalid_request(req),
{
    let name_t = crate::strutil::trim_str(req.name.as_str());
    name_t.as_str().unicode_len() == 0 || (req.node.len() == 0 && !req.allNode)
}

/// The destination nodes: the explicit list, extended by each online node
/// not already present, in the given order.
pub open spec fn union_nodes(base: Seq<Seq<char>>, online: Seq<Seq<char>>) -> Seq<Seq<char>>
    decreases online.len(),
{
    if online.len() == 0 {
        base
    } else {
        let base2 = if base.contains(online[0]) {
            base
        } else {
            base.push(online[0])
        };
        union_nodes(base2, online.drop_first())
    }
}

/// Copies a list of names.
pub fn clone_strings(v: &Vec<String>) -> (r: Vec<String>)
    ensures
        r@.len() == v@.len(),
        forall|k: int| 0 <= k < v@.len() ==> r@[k] == v@[k],
{
    let mut out: Vec<String> = Vec::new();
    let n = v.len();
    let mut i: usize = 0;
    while i < n
        invariant
            i <= n,
            n == v@.len(),
            out@.len() == i,
            forall|k: int| 0 <= k < i ==> out@[k] == v@[k],
        decreases n - i,
    {
        out.push(v[i].clone());
        i = i + 1;
    }
    out
}

/// Whether the list holds the name.
pub fn contains_name(v: &Vec<String>, x: &str) -> (r: bool)
    ensures
        r == v.deep_view().contains(x@),
{
    let n = v.len();
    let mut i: usize = 0;
    while i < n
        invariant
            i <= n,
            n == v@.len(),
            forall|k: int| 0 <= k < i ==> v.deep_view()[k] != x@,
        decreases n - i,
    {
        if str_eq(v[i].as_str(), x) {
            proof {
                assert(v.deep_view()[i as int] == x@);
            }
            return true;
        }
        i = i + 1;
    }
    proof {
        assert(forall|k: int| 0 <= k < v.deep_view().len() ==> v.deep_view()[k] != x@);
    }
    false
}

/// Everything derived from one accepted request.
pub struct TaskPlan {
    pub targets: Vec<String>,
    pub nodes: Vec<String>,
    pub record: TaskRecord,
    pub dispatch: DispatchTemplate,
}

/// What the persisted record for an accepted request holds.
pub open spec fn record_matches(
    rec: TaskRecord,
    req: &TaskAddRequest,
    nodes: Seq<Seq<char>>,
    now: Seq<char>,
) -> bool {
    let exp = expansion_of(req.target@, req.ignore@);
    &&& rec.name@ == req.name@
    &&& rec.target@ == req.target@
    &&& rec.ignore@ == req.ignore@
    &&& rec.node.deep_view() == nodes
    &&& rec.all_node == req.allNode
    &&& rec.scheduled_tasks == req.scheduledTasks
    &&& rec.template@ == req.template@
    &&& rec.duplicates == req.duplicates
    &&& rec.task_num == exp.len() as i32
    &&& rec.progress == 0
    &&& rec.creat_time@ == now
    &&& rec.end_time@ == Seq::<char>::empty()
    &&& rec.status == 1
    &&& rec.task_type@ == seq!['s', 'c', 'a', 'n']
}

/// What an accepted plan holds for the given inputs.
pub open spec fn plan_matches(
    p: TaskPlan,
    req: &TaskAddRequest,
    online: Seq<Seq<char>>,
    params: Option<Vec<ParamEntry>>,
    task_id: Seq<char>,
    now: Seq<char>,
) -> bool {
    let exp = expansion_of(req.target@, req.ignore@);
    &&& p.targets.deep_view() == exp
    &&& p.nodes.deep_view() == if req.allNode {
        union_nodes(req.node.deep_view(), online)
    } else {
        req.node.deep_view()
    }
    &&& record_matches(p.record, req, p.nodes.deep_view(), now)
    &&& p.dispatch@.params == match params {
        Some(t) => crate::models::param_views(t@),
        None => Seq::<(Seq<char>, Seq<char>, Seq<char>)>::empty(),
    }
    &&& p.dispatch@.task_name == req.name@
    &&& p.dispatch@.ignore == req.ignore@
    &&& p.dispatch@.duplicates == req.duplicates
    &&& p.dispatch@.id == task_id
    &&& p.dispatch@.task_type == seq!['s', 'c', 'a', 'n']
    &&& p.dispatch@.is_start == false
}

/// Validates a request and resolves everything a task needs: the expanded
/// targets, the destination nodes, the record to persist and the payload
/// to fan out. Rejected requests plan nothing.
pub fn plan_task(
    req: &TaskAddRequest,
    online: &Vec<String>,
    template_params: Option<Vec<ParamEntry>>,
    task_id: String,
    now: String,
) -> (r: Result<TaskPlan, TaskError>)
    ensures
        r is Err <==> invalid_request(req),
        r matches Err(e) ==> e == TaskError::InvalidArgs,
        r matches Ok(p) ==> plan_matches(p, req, online.deep_view(), template_params, task_id@, now@),
{
    let name_t = crate::strutil::trim_str(req.name.as_str());
    if name_t.as_str().unicode_len() == 0 || (req.node.len() == 0 && !req.allNode) {
        return Err(TaskError::InvalidArgs);
    }
    let targets = expand_targets(req.target.as_str(), req.ignore.as_str());
    let task_num: i32 = targets.len() as i32;
    let mut nodes = clone_strings(&req.node);
    proof {
        assert(nodes.deep_view() =~~= req.node.deep_view());
    }
    if req.allNode {
        let ghost online_dv = online.deep_view();
        let n = online.len();
        let mut k: usize = 0;
        proof {
            assert(online_dv.skip(0) =~= online_dv);
        }
        while k < n
            invariant
                k <= n,
                n == online_dv.len(),
                online_dv == online.deep_view(),
                forall|j: int| 0 <= j < n ==> online_dv[j] == online[j]@,
                union_nodes(req.node.deep_view(), online_dv) == union_nodes(
                    nodes.deep_view(),
                    online_dv.skip(k as int),
                ),
            decreases n - k,
        {
            proof {
                assert(online_dv.skip(k as int)[0] == online_dv[k as int]);
                assert(online_dv.skip(k as int).drop_first() =~= online_dv.skip(k + 1));
            }
            let present = contains_name(&nodes, online[k].as_str());
            if !present {
                let ghost before = nodes.deep_view();
                nodes.push(online[k].clone());
                proof {
                    assert(nodes.deep_view() =~~= before.push(online_dv[k as int]));
                }
            }
            k = k + 1;
        }
        proof {
            assert(online_dv.skip(n as int) =~= Seq::<Seq<char>>::empty());
        }
    }
    let record_nodes = clone_strings(&nodes);
    let record = TaskRecord {
        name: req.name.clone(),
        target: req.target.clone(),
        ignore: req.ignore.clone(),
        node: record_nodes,
        all_node: req.allNode,
        scheduled_tasks: req.scheduledTasks,
        template: req.template.clone(),
        duplicates: req.duplicates,
        task_num,
        progress: 0,
        creat_time: now,
        end_time: String::new(),
        status: 1,
        task_type: "scan".to_owned(),
    };
    let params: Vec<ParamEntry> = match template_params {
        Some(t) => t,
        None => Vec::new(),
    };
    let dispatch = DispatchTemplate {
        Parameters: params,
        TaskName: req.name.clone(),
        ignore: req.ignore.clone(),
        duplicates: req.duplicates,
        ID: task_id,
        task_type: "scan".to_owned(),
        IsStart: false,
    };
    let plan = TaskPlan { targets, nodes, record, dispatch };
    proof {
        reveal_strlit("scan");
        assert("scan"@ =~= seq!['s', 'c', 'a', 'n']);
        assert(plan.record.node.deep_view() =~~= plan.nodes.deep_view());
        assert(plan.record.end_time@ =~= Seq::<char>::empty());
        assert(plan.dispatch@.params =~~= match template_params {
            Some(t) => crate::models::param_views(t@),
            None => Seq::<(Seq<char>, Seq<char>, Seq<char>)>::empty(),
        });
    }
    Ok(plan)
}

/// Creates a task: validation, persistence of the record and queueing of
/// the expanded targets onto the task's shared pool. A rejected request
/// leaves every store untouched. The returned plan carries the dispatch
/// payload and destination nodes for the fan-out.
pub fn add_task(
    tasks: &mut TaskStore,
    pool: &mut TargetQueue,
    req: &TaskAddRequest,
    online: &Vec<String>,
    template_params: Option<Vec<ParamEntry>>,
    task_id: String,
    now: String,
) -> (r: Result<TaskPlan, TaskError>)
    requires
        old(pool).items@.len() == 0,
    ensures
        r is Err <==> invalid_request(req),
        r is Err ==> final(tasks).tasks@ == old(tasks).tasks@ && final(pool).items@ == old(
            pool,
        ).items@,
        r matches Ok(p) ==> plan_matches(p, req, online.deep_view(), template_params, task_id@, now@)
            && final(tasks).tasks@.len() == old(tasks).tasks@.len() + 1
            && (forall|j: int| 0 <= j < old(tasks).tasks@.len()
                ==> final(tasks).tasks@[j] == old(tasks).tasks@[j])
            && record_matches(final(tasks).tasks@.last(), req, p.nodes.deep_view(), now@)
            && final(pool).items.deep_view() == expansion_of(req.target@, req.ignore@),
{
    let plan = plan_task(req, online, template_params, task_id, now)?;
    let record = TaskRecord {
        name: plan.record.name.clone(),
        target: plan.record.target.clone(),
        ignore: plan.record.ignore.clone(),
        node: clone_strings(&plan.record.node),
        all_node: plan.record.all_node,
        scheduled_tasks: plan.record.scheduled_tasks,
        template: plan.record.template.clone(),
        duplicates: plan.record.duplicates,
        task_num: plan.record.task_num,
        progress: plan.record.progress,
        creat_time: plan.record.creat_time.clone(),
        end_time: plan.record.end_time.clone(),
        status: plan.record.status,
        task_type: plan.record.task_type.clone(),
    };
    proof {
        assert(record.node.deep_view() =~~= plan.record.node.deep_view());
    }
    tasks.insert_task(record);
    pool.enqueue_all(&plan.targets);
    proof {
        assert(pool.items.deep_view() =~~= plan.targets.deep_view());
    }
    Ok(plan)
}

/// Fans the identical payload out to every destination queue: each queue
/// receives exactly one copy, and nothing else changes.
pub fn dispatch_to_nodes(queues: &mut Vec<NodeQueue>, d: &DispatchTemplate)
    ensures
        final(queues)@.len() == old(queues)@.len(),
        forall|k: int|
            0 <= k < old(queues)@.len() ==> final(queues)@[k].items@.len() == old(
                queues,
            )@[k].items@.len() + 1 && final(queues)@[k].items@.last()@ == d@ && forall|j: int|
                0 <= j < old(queues)@[k].items@.len() ==> final(queues)@[k].items@[j] == old(
                    queues,
                )@[k].items@[j],
{
    let n = queues.len();
    let mut k: usize = 0;
    while k < n
        invariant
            k <= n,
            n == queues@.len(),
            queues@.len() == old(queues)@.len(),
            forall|i: int| k <= i < n ==> queues@[i] == old(queues)@[i],
            forall|i: int|
                0 <= i < k ==> queues@[i].items@.len() == old(queues)@[i].items@.len() + 1
                    && queues@[i].items@.last()@ == d@ && forall|j: int|
                    0 <= j < old(queues)@[i].items@.len() ==> queues@[i].items@[j] == old(
                        queues,
                    )@[i].items@[j],
        decreases n - k,
    {
        let copy = d.duplicate();
        let mut q = NodeQueue::new();
        queues.set_and_swap(k, &mut q);
        q.enqueue(copy);
        queues.set(k, q);
        k = k + 1;
    }
}

} // verus!
