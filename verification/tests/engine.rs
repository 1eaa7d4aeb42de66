use lib::engine::AdvancedJITEngine;
use lib::invoke::{Action, Invocation};
use lib::value::Val;

type Body = fn(&mut Harness, &str, usize, Vec<Val>) -> Result<Val, String>;

struct Func {
    id: String,
    loop_heavy: bool,
    inlineable: bool,
    body: Body,
}

/// Runs invocations through the engine's steps, as a host program does,
/// counting body runs.
struct Harness {
    engine: AdvancedJITEngine,
    clock: u64,
    body_runs: usize,
}

impl Harness {
    fn new() -> Self {
        Harness { engine: AdvancedJITEngine::new(), clock: 0, body_runs: 0 }
    }

    fn gc(&mut self) {
        let max_memory_mb = 50.0f64;
        let items = self.engine.cache_items() as usize;
        let memory_mb = self.engine.get_memory_usage_bytes() as f64 / (1024.0 * 1024.0);
        let mut effective = self.engine.max_cache_size;
        if items > 0 {
            let average = memory_mb / items as f64;
            if average > 0.0 {
                let safe = ((max_memory_mb * 0.9) / average).floor() as usize;
                effective = effective.min(safe).max(1);
            }
        }
        let target = ((effective as f64 * 0.8).floor() as usize).max(1);
        let to_bytes = |mb: f64| (mb * 1024.0 * 1024.0).floor() as i128;
        self.engine.collect_garbage(effective, to_bytes(max_memory_mb), target, to_bytes(max_memory_mb * 0.8));
    }

    fn execute(&mut self, f: &Func, args: Vec<Val>) -> Result<Val, String> {
        self.execute_at(f, None, 0, args)
    }

    fn execute_at(&mut self, f: &Func, caller: Option<String>, depth: usize, args: Vec<Val>) -> Result<Val, String> {
        self.gc();
        let mut inv = Invocation::new(f.id.clone(), caller, depth, f.inlineable, f.loop_heavy);
        assert!(self.engine.has_room(&f.id));
        self.clock += 1;
        let mut act = self.engine.begin(&mut inv, &args, self.clock);
        loop {
            match act {
                Action::RunBody => {
                    self.body_runs += 1;
                    let r = (f.body)(self, &f.id, depth, args.clone());
                    assert!(self.engine.has_room(&f.id));
                    self.clock += 1;
                    act = self.engine.after_body(&mut inv, r);
                },
                Action::Restart => {
                    self.gc();
                    assert!(self.engine.has_room(&f.id));
                    self.clock += 1;
                    act = self.engine.begin(&mut inv, &args, self.clock);
                },
                Action::Finish(r) => return r,
            }
        }
    }
}

fn num(x: f64) -> Val {
    Val::Number(x.to_string())
}

fn as_f64(v: &Val) -> Option<f64> {
    match v {
        Val::Number(t) => t.parse::<f64>().ok(),
        _ => None,
    }
}

fn add_body(_h: &mut Harness, _id: &str, _depth: usize, args: Vec<Val>) -> Result<Val, String> {
    if args.len() < 2 {
        return Err("Need at least 2 arguments".to_string());
    }
    match (as_f64(&args[0]), as_f64(&args[1])) {
        (Some(a), Some(b)) => Ok(num(a + b)),
        _ => Err("Arguments must be numbers".to_string()),
    }
}

fn simple_add() -> Func {
    Func { id: "simple_add".to_string(), loop_heavy: false, inlineable: false, body: add_body }
}

fn heavy_body(_h: &mut Harness, _id: &str, _depth: usize, args: Vec<Val>) -> Result<Val, String> {
    if args.is_empty() {
        return Err("Need size argument".to_string());
    }
    match as_f64(&args[0]) {
        Some(limit) => {
            let mut sum = 0.0;
            for i in 0..(limit as usize) {
                sum += i as f64;
            }
            Ok(num(sum))
        },
        None => Err("Limit must be number".to_string()),
    }
}

fn heavy_loop(id: String) -> Func {
    Func { id, loop_heavy: true, inlineable: false, body: heavy_body }
}

fn linear_body(h: &mut Harness, id: &str, depth: usize, args: Vec<Val>) -> Result<Val, String> {
    if args.is_empty() {
        return Err("Argument empty".to_string());
    }
    match as_f64(&args[0]) {
        Some(n) => {
            if n <= 0.0 {
                Ok(num(0.0))
            } else {
                let res = h.execute_at(&linear_recursion(), Some(id.to_string()), depth + 1, vec![num(n - 1.0)])?;
                match as_f64(&res) {
                    Some(r) => Ok(num(r + 1.0)),
                    None => Err("Invalid response".to_string()),
                }
            }
        },
        None => Err("Expected a number".to_string()),
    }
}

fn linear_recursion() -> Func {
    Func { id: "linear_recursion".to_string(), loop_heavy: false, inlineable: false, body: linear_body }
}

fn faulty_body(_h: &mut Harness, _id: &str, _depth: usize, _args: Vec<Val>) -> Result<Val, String> {
    Err("Simulated failure".to_string())
}

fn faulty() -> Func {
    Func { id: "faulty".to_string(), loop_heavy: false, inlineable: false, body: faulty_body }
}

fn inline_body(_h: &mut Harness, _id: &str, _depth: usize, _args: Vec<Val>) -> Result<Val, String> {
    Ok(Val::String("inline_val".to_string()))
}

fn inlineable() -> Func {
    Func { id: "inlineable".to_string(), loop_heavy: false, inlineable: true, body: inline_body }
}

fn parent_body(h: &mut Harness, id: &str, depth: usize, _args: Vec<Val>) -> Result<Val, String> {
    h.execute_at(&inlineable(), Some(id.to_string()), depth + 1, vec![])
}

fn parent() -> Func {
    Func { id: "parent".to_string(), loop_heavy: false, inlineable: false, body: parent_body }
}

fn echo_body(_h: &mut Harness, _id: &str, _depth: usize, args: Vec<Val>) -> Result<Val, String> {
    Ok(Val::Array(args))
}

fn echo() -> Func {
    Func { id: "echo".to_string(), loop_heavy: false, inlineable: false, body: echo_body }
}

fn lookup<'a, V>(entries: &'a [(String, V)], key: &str) -> Option<&'a V> {
    entries.iter().find(|e| e.0 == key).map(|e| &e.1)
}

#[test]
fn test_tier_m_calibration() {
    let mut h = Harness::new();
    let add_fn = simple_add();
    let faulty_fn = faulty();

    let res = h.execute(&add_fn, vec![num(5.0), num(7.0)]);
    assert_eq!(res, Ok(num(12.0)));
    assert!(!h.engine.is_quarantined("simple_add"));

    let mut caught = false;
    for _ in 0..5 {
        if h.execute(&faulty_fn, vec![]).is_err() {
            caught = true;
        }
    }
    assert!(caught, "Meta-test verification: failed to catch simulated error");
    assert!(h.engine.is_quarantined("faulty"), "Meta-test verification: failed to quarantine faulty function");
}

#[test]
fn test_tier_0_invariants() {
    let mut h = Harness::new();
    let add_fn = simple_add();
    for _ in 0..5 {
        let _ = h.execute(&add_fn, vec![num(2.0), num(3.0)]);
    }
    assert!(h.engine.is_compiled("simple_add"), "SUT failed compile invariant after threshold operations");
}

#[test]
fn test_tier_2_hot_path_memoization() {
    let mut h = Harness::new();
    let add_fn = simple_add();
    for _ in 0..5 {
        let _ = h.execute(&add_fn, vec![num(10.0), num(20.0)]);
    }
    let res1 = h.execute(&add_fn, vec![num(10.0), num(20.0)]).unwrap();
    let res2 = h.execute(&add_fn, vec![num(10.0), num(20.0)]).unwrap();
    assert_eq!(res1, res2);
}

#[test]
fn test_tier_4_memory_pressure_gc() {
    let mut h = Harness::new();
    h.engine.max_cache_size = 3;
    for i in 0..5 {
        let loop_fn = heavy_loop(format!("heavy_{}", i));
        for _ in 0..4 {
            let _ = h.execute(&loop_fn, vec![num(10.0)]);
        }
    }
    let queue = h.engine.get_clock_queue();
    assert!(queue.len() <= 5, "Clock queue size exceeded maximum limit bounds!");
}

#[test]
fn test_tier_5_chaos_deoptimization_invalidation() {
    let mut h = Harness::new();
    let parent_fn = parent();
    for _ in 0..5 {
        let _ = h.execute(&parent_fn, vec![]);
    }
    assert!(h.engine.is_compiled("parent"));
    let parent_to_children = h.engine.get_parent_to_children_map();
    let child_to_parents = h.engine.get_child_to_parents_map();
    assert!(lookup(&parent_to_children, "parent").unwrap().contains(&"inlineable".to_string()));
    assert!(lookup(&child_to_parents, "inlineable").unwrap().contains(&"parent".to_string()));

    h.engine.force_deoptimize_total("inlineable");

    assert!(!h.engine.is_optimized("parent"), "Cascading deopt failed - parent is still optimized!");
}

#[test]
fn test_stack_depth_protection() {
    let mut h = Harness::new();
    let linear = linear_recursion();
    let res = h.execute(&linear, vec![num(500.0)]);
    assert!(res.is_err());
    let err_msg = res.err().unwrap();
    assert!(err_msg.contains("[💥 STACK OVERFLOW]"));
}

fn run_f8_gc_scenario(capacity: usize, overflow_count: usize, access_bonus_keys: Vec<usize>, scenario_id: &str) {
    let mut h = Harness::new();
    h.engine.max_cache_size = capacity;
    let mut functions = vec![];
    for i in 0..(capacity + overflow_count) {
        functions.push(heavy_loop(format!("f8_fn_{}_{}", scenario_id, i)));
    }
    for f in &functions {
        for _ in 0..4 {
            let _ = h.execute(f, vec![num(2.0)]);
        }
    }
    for idx in access_bonus_keys {
        if idx < functions.len() {
            let _ = h.execute(&functions[idx], vec![num(2.0)]);
        }
    }
    h.engine.force_gc();
    let queue = h.engine.get_clock_queue();
    assert!(queue.len() <= capacity + 1, "GC failed to evict overflow cache items on scenario {}", scenario_id);
}

#[test]
fn test_f8_scenario_01() {
    run_f8_gc_scenario(2, 2, vec![0], "f8_01");
}

#[test]
fn test_f8_scenario_04() {
    run_f8_gc_scenario(5, 4, vec![0, 2, 3], "f8_04");
}

#[test]
fn test_f8_scenario_06() {
    run_f8_gc_scenario(2, 5, vec![], "f8_06");
}

#[test]
fn test_f8_scenario_10() {
    run_f8_gc_scenario(6, 5, vec![0, 1, 2, 3], "f8_10");
}

#[test]
fn test_f8_scenario_25() {
    run_f8_gc_scenario(16, 2, vec![0, 1, 4], "f8_25");
}

#[test]
fn test_f8_scenario_50() {
    run_f8_gc_scenario(26, 5, vec![0, 1, 2, 3], "f8_50");
}

#[test]
fn memoized_result_skips_the_body() {
    let mut h = Harness::new();
    let add_fn = simple_add();
    for _ in 0..4 {
        let _ = h.execute(&add_fn, vec![num(10.0), num(20.0)]);
    }
    let runs = h.body_runs;
    let res = h.execute(&add_fn, vec![num(10.0), num(20.0)]);
    assert_eq!(res, Ok(num(30.0)));
    assert_eq!(h.body_runs, runs, "memo hit must not run the body");
    let res = h.execute(&add_fn, vec![num(1.0), num(2.0)]);
    assert_eq!(res, Ok(num(3.0)));
    assert_eq!(h.body_runs, runs + 1, "a new argument list runs the body");
}

#[test]
fn compiles_at_the_jit_threshold() {
    let mut h = Harness::new();
    let add_fn = simple_add();
    let _ = h.execute(&add_fn, vec![num(1.0), num(1.0)]);
    let _ = h.execute(&add_fn, vec![num(1.0), num(1.0)]);
    assert!(!h.engine.is_compiled("simple_add"));
    let _ = h.execute(&add_fn, vec![num(1.0), num(1.0)]);
    assert!(h.engine.is_compiled("simple_add"));
    assert!(h.engine.is_optimized("simple_add"));
    assert_eq!(h.engine.get_clock_queue(), vec!["simple_add".to_string()]);
    assert_eq!(lookup(&h.engine.get_clock_use_bits(), "simple_add"), Some(&true));
}

#[test]
fn memory_accounting_is_exact() {
    let mut h = Harness::new();
    assert_eq!(h.engine.get_memory_usage_bytes(), 0);
    let add_fn = simple_add();
    for _ in 0..3 {
        let _ = h.execute(&add_fn, vec![num(10.0), num(20.0)]);
    }
    // compiled code with its baseline form and one variant
    assert_eq!(h.engine.get_memory_usage_bytes(), 1572864 + 1048576 + 2097152);
    let _ = h.execute(&add_fn, vec![num(10.0), num(20.0)]);
    // one memo entry under the five-byte key "10,20"
    assert_eq!(h.engine.get_memory_usage_bytes(), 1572864 + 1048576 + 2097152 + 5 * 2 + 200 + 262144);
    assert_eq!(h.engine.cache_items(), 1);
}

#[test]
fn loop_code_compiles_at_the_osr_threshold() {
    let mut h = Harness::new();
    let f = heavy_loop("looper".to_string());
    let _ = h.execute(&f, vec![num(3.0)]);
    let _ = h.execute(&f, vec![num(3.0)]);
    assert!(!h.engine.is_osr_compiled("looper"));
    let res = h.execute(&f, vec![num(3.0)]);
    assert_eq!(res, Ok(num(3.0)));
    assert!(h.engine.is_osr_compiled("looper"));
    assert_eq!(h.engine.get_memory_usage_bytes(), 3145728 + 1572864 + 1048576 + 2097152);
    assert_eq!(h.engine.cache_items(), 2);
}

#[test]
fn quarantined_function_is_refused_with_its_message() {
    let mut h = Harness::new();
    let f = faulty();
    assert_eq!(h.execute(&f, vec![]), Err("Simulated failure".to_string()));
    assert!(!h.engine.is_quarantined("faulty"));
    assert_eq!(h.execute(&f, vec![]), Err("Simulated failure".to_string()));
    assert!(h.engine.is_quarantined("faulty"));
    let runs = h.body_runs;
    assert_eq!(
        h.execute(&f, vec![]),
        Err("[🚫 SANDBOX BLOCK] 'faulty' diblokir karena dimasukkan ke karantina.".to_string())
    );
    assert_eq!(h.body_runs, runs);
    assert!(!h.engine.is_compiled("faulty"));
}

#[test]
fn stack_overflow_message_names_the_depth() {
    let mut h = Harness::new();
    let linear = linear_recursion();
    let res = h.execute(&linear, vec![num(500.0)]);
    assert_eq!(res, Err("[💥 STACK OVERFLOW] JIT Stack Overflow Protected di kedalaman 300!".to_string()));
    assert!(!h.engine.is_quarantined("linear_recursion"));
    let res = h.execute(&linear, vec![num(5.0)]);
    assert_eq!(res, Ok(num(5.0)));
}

#[test]
fn shallow_recursion_completes() {
    let mut h = Harness::new();
    let res = h.execute(&linear_recursion(), vec![num(20.0)]);
    assert_eq!(res, Ok(num(20.0)));
    assert!(h.engine.get_active_invocations_map().is_empty());
}

#[test]
fn running_marks_are_released() {
    let mut h = Harness::new();
    let add_fn = simple_add();
    for i in 0..10 {
        let _ = h.execute(&add_fn, vec![num(i as f64), num(1.0)]);
    }
    let _ = h.execute(&parent(), vec![]);
    let _ = h.execute(&linear_recursion(), vec![num(400.0)]);
    assert!(h.engine.get_active_invocations_map().is_empty());
}

#[test]
fn third_signature_deoptimizes_to_baseline() {
    let mut h = Harness::new();
    let f = echo();
    for _ in 0..3 {
        let _ = h.execute(&f, vec![num(1.0)]);
    }
    for _ in 0..3 {
        let _ = h.execute(&f, vec![Val::String("a".to_string())]);
    }
    assert!(h.engine.is_optimized("echo"));
    let res = h.execute(&f, vec![Val::Null]);
    assert_eq!(res, Ok(Val::Array(vec![Val::Null])));
    assert!(h.engine.is_compiled("echo"));
    assert!(!h.engine.is_optimized("echo"));
}

#[test]
fn forced_dependency_is_recorded_both_ways() {
    let mut e = AdvancedJITEngine::new();
    e.force_register_dependency("p", "c");
    e.force_register_dependency("q", "c");
    assert_eq!(e.get_parent_to_children_map(), vec![
        ("p".to_string(), vec!["c".to_string()]),
        ("q".to_string(), vec!["c".to_string()]),
    ]);
    assert_eq!(e.get_child_to_parents_map(), vec![("c".to_string(), vec!["p".to_string(), "q".to_string()])]);
    e.force_invalidate_parents("c");
    assert!(e.get_child_to_parents_map().is_empty());
    assert_eq!(e.get_parent_to_children_map(), vec![
        ("p".to_string(), vec![]),
        ("q".to_string(), vec![]),
    ]);
}

#[test]
fn deoptimizing_an_uncompiled_function_changes_nothing() {
    let mut e = AdvancedJITEngine::new();
    e.force_register_dependency("p", "c");
    e.force_deoptimize_total("c");
    assert_eq!(e.get_child_to_parents_map(), vec![("c".to_string(), vec!["p".to_string()])]);
}

#[test]
fn garbage_collection_shrinks_to_target() {
    let mut h = Harness::new();
    for i in 0..4 {
        let f = heavy_loop(format!("g{}", i));
        for _ in 0..3 {
            let _ = h.execute(&f, vec![num(1.0)]);
        }
    }
    let before = h.engine.cache_items();
    assert!(before >= 2);
    h.engine.collect_garbage(1, i128::MAX, 1, i128::MAX);
    assert_eq!(h.engine.cache_items(), 1);
    h.engine.collect_garbage(usize::MAX, i128::MAX, 0, i128::MAX);
    assert_eq!(h.engine.cache_items(), 1, "under the trigger limits nothing is evicted");
    h.engine.force_gc();
    assert_eq!(h.engine.cache_items(), 0);
    assert_eq!(h.engine.get_memory_usage_bytes(), 0);
}

#[test]
fn fresh_engine_has_default_limits() {
    let e = AdvancedJITEngine::new();
    assert_eq!(e.max_cache_size, 10);
    assert_eq!(e.jit_threshold, 3);
    assert_eq!(e.osr_threshold, 3);
    assert_eq!(e.max_error_threshold, 2);
    assert_eq!(e.max_polymorphic_slots, 2);
    assert_eq!(e.max_memo_cache_size, 5);
    assert_eq!(e.max_global_slow_path_attempts, 10);
    assert_eq!(e.max_deopt_threshold, 2);
    assert_eq!(e.max_stack_depth, 300);
    assert!(e.get_clock_queue().is_empty());
    assert_eq!(e.get_clock_hand(), 0);
    assert!(e.get_clock_use_bits().is_empty());
    assert_eq!(e.cache_items(), 0);
}

fn outer_body(h: &mut Harness, id: &str, depth: usize, args: Vec<Val>) -> Result<Val, String> {
    h.execute_at(&echo(), Some(id.to_string()), depth + 1, args)
}

fn outer() -> Func {
    Func { id: "outer".to_string(), loop_heavy: false, inlineable: false, body: outer_body }
}

#[test]
fn running_function_is_not_evicted() {
    let mut h = Harness::new();
    let f = outer();
    for _ in 0..3 {
        let _ = h.execute(&f, vec![num(1.0)]);
    }
    assert!(h.engine.is_compiled("outer"));
    assert!(h.engine.is_compiled("echo"));
    let mut inv = Invocation::new("outer".to_string(), None, 0, false, false);
    let act = h.engine.begin(&mut inv, &[num(1.0)], 1000);
    assert!(matches!(act, Action::RunBody));
    assert_eq!(lookup(&h.engine.get_active_invocations_map(), "outer"), Some(&1));
    // every limit exceeded: everything evictable goes, the running function stays
    h.engine.collect_garbage(0, -1, 0, -1);
    assert!(h.engine.is_compiled("outer"));
    assert!(!h.engine.is_compiled("echo"));
    let act = h.engine.after_body(&mut inv, Ok(num(1.0)));
    assert!(matches!(act, Action::Finish(Ok(_))));
    assert!(h.engine.get_active_invocations_map().is_empty());
}

#[test]
fn memo_table_keeps_at_most_its_limit() {
    let mut h = Harness::new();
    let add_fn = simple_add();
    for _ in 0..3 {
        let _ = h.execute(&add_fn, vec![num(0.0), num(1.0)]);
    }
    assert_eq!(h.engine.get_memory_usage_bytes(), 4718592);
    for i in 1..8 {
        let _ = h.execute(&add_fn, vec![num(i as f64), num(1.0)]);
    }
    // five entries under three-byte keys such as "7,1"
    assert_eq!(h.engine.get_memory_usage_bytes(), 4718592 + 5 * (3 * 2 + 200 + 262144));
    let runs = h.body_runs;
    // the smallest keys left first; "7,1" is still memoized
    assert_eq!(h.execute(&add_fn, vec![num(7.0), num(1.0)]), Ok(num(8.0)));
    assert_eq!(h.body_runs, runs);
    assert_eq!(h.execute(&add_fn, vec![num(1.0), num(1.0)]), Ok(num(2.0)));
    assert_eq!(h.body_runs, runs + 1);
}

fn flaky_body(_h: &mut Harness, _id: &str, _depth: usize, args: Vec<Val>) -> Result<Val, String> {
    match args.first().and_then(as_f64) {
        Some(n) if n < 100.0 => Ok(num(n)),
        _ => Err("boom".to_string()),
    }
}

fn shaky_body(_h: &mut Harness, _id: &str, _depth: usize, args: Vec<Val>) -> Result<Val, String> {
    match args.first() {
        Some(Val::Boolean(true)) => Err("bad".to_string()),
        _ => Ok(Val::Null),
    }
}

#[test]
fn loop_code_failure_counts_the_error_twice() {
    let mut h = Harness::new();
    let f = Func { id: "flaky".to_string(), loop_heavy: true, inlineable: false, body: flaky_body };
    assert_eq!(h.execute(&f, vec![num(1.0)]), Ok(num(1.0)));
    assert_eq!(h.execute(&f, vec![num(1.0)]), Ok(num(1.0)));
    // the third call runs the fresh loop code, which fails: counted in the
    // run and again when the loop code is dropped, reaching the threshold
    assert_eq!(h.execute(&f, vec![num(1000.0)]), Err("boom".to_string()));
    assert!(h.engine.is_quarantined("flaky"));
    assert!(!h.engine.is_osr_compiled("flaky"));
    assert!(!h.engine.is_compiled("flaky"));
}

#[test]
fn second_deoptimization_blacklists() {
    let mut h = Harness::new();
    let f = echo();
    let calls = |h: &mut Harness, v: Val, n: usize| {
        for _ in 0..n {
            assert_eq!(h.execute(&f, vec![v.clone()]), Ok(Val::Array(vec![v.clone()])));
        }
    };
    calls(&mut h, num(1.0), 3);
    calls(&mut h, Val::String("s".to_string()), 3);
    assert!(h.engine.is_optimized("echo"));
    calls(&mut h, Val::Null, 1);
    assert!(h.engine.is_compiled("echo") && !h.engine.is_optimized("echo"));
    calls(&mut h, Val::Null, 2);
    assert!(h.engine.is_optimized("echo"));
    calls(&mut h, num(1.0), 3);
    assert!(h.engine.is_optimized("echo"));
    calls(&mut h, Val::String("s".to_string()), 1);
    assert!(!h.engine.is_compiled("echo"));
    calls(&mut h, num(1.0), 5);
    assert!(!h.engine.is_compiled("echo"), "a blacklisted function is not compiled again");
}

#[test]
fn baseline_failure_drops_the_baseline_form() {
    let mut h = Harness::new();
    h.engine.max_error_threshold = 10;
    let f = Func { id: "shaky".to_string(), loop_heavy: false, inlineable: false, body: shaky_body };
    for _ in 0..3 {
        let _ = h.execute(&f, vec![num(1.0)]);
    }
    for _ in 0..3 {
        let _ = h.execute(&f, vec![Val::String("s".to_string())]);
    }
    let _ = h.execute(&f, vec![Val::Null]);
    assert!(!h.engine.is_optimized("shaky"));
    assert_eq!(h.engine.get_memory_usage_bytes(), 1572864 + 1048576);
    let runs = h.body_runs;
    assert_eq!(h.execute(&f, vec![Val::Boolean(true)]), Err("bad".to_string()));
    assert_eq!(h.body_runs, runs + 2, "the failed baseline run is retried once");
    assert_eq!(h.engine.get_memory_usage_bytes(), 1572864);
    assert!(!h.engine.is_quarantined("shaky"));
}

#[test]
fn slow_path_limit_blacklists() {
    let mut h = Harness::new();
    let f = echo();
    let argument_lists = vec![
        vec![],
        vec![num(1.0)],
        vec![Val::Null],
        vec![Val::String("a".to_string())],
        vec![Val::Boolean(true)],
        vec![Val::BigInt(1)],
        vec![Val::Array(vec![])],
        vec![Val::Func("f".to_string())],
        vec![Val::Date(1)],
        vec![num(1.0), num(2.0)],
    ];
    for args in argument_lists {
        let _ = h.execute(&f, args);
    }
    for _ in 0..5 {
        let _ = h.execute(&f, vec![num(1.0)]);
    }
    assert!(!h.engine.is_compiled("echo"));
}

fn fragile_body(_h: &mut Harness, _id: &str, _depth: usize, args: Vec<Val>) -> Result<Val, String> {
    match args.first().and_then(as_f64) {
        Some(n) if n < 100.0 => Ok(num(n)),
        _ => Err("fragile".to_string()),
    }
}

#[test]
fn failing_optimized_call_runs_the_body_three_times() {
    let mut h = Harness::new();
    h.engine.max_error_threshold = 10;
    let f = Func { id: "fragile".to_string(), loop_heavy: false, inlineable: false, body: fragile_body };
    for _ in 0..3 {
        assert_eq!(h.execute(&f, vec![num(1.0)]), Ok(num(1.0)));
    }
    assert!(h.engine.is_optimized("fragile"));
    let runs = h.body_runs;
    // optimized run, baseline run, plain retry
    assert_eq!(h.execute(&f, vec![num(500.0)]), Err("fragile".to_string()));
    assert_eq!(h.body_runs, runs + 3);
    assert!(h.engine.is_compiled("fragile"));
    assert!(!h.engine.is_optimized("fragile"));
    assert!(h.engine.get_active_invocations_map().is_empty());
}

#[test]
fn every_tier_answers_what_the_body_gives() {
    let mut h = Harness::new();
    let add_fn = simple_add();
    let mut answers = vec![];
    for _ in 0..8 {
        answers.push(h.execute(&add_fn, vec![num(2.5), num(4.0)]));
    }
    assert!(answers.iter().all(|a| *a == Ok(num(6.5))));
    let l = heavy_loop("tiers".to_string());
    for _ in 0..6 {
        assert_eq!(h.execute(&l, vec![num(4.0)]), Ok(num(6.0)));
    }
}

#[test]
fn test_f8_scenario_02() {
    run_f8_gc_scenario(3, 2, vec![0, 1], "f8_02");
}

#[test]
fn test_f8_scenario_03() {
    run_f8_gc_scenario(4, 3, vec![1, 2], "f8_03");
}

#[test]
fn test_f8_scenario_05() {
    run_f8_gc_scenario(6, 2, vec![0, 1, 4], "f8_05");
}

#[test]
fn test_f8_scenario_07() {
    run_f8_gc_scenario(3, 5, vec![0], "f8_07");
}

#[test]
fn test_f8_scenario_08() {
    run_f8_gc_scenario(4, 5, vec![1, 2], "f8_08");
}

#[test]
fn test_f8_scenario_09() {
    run_f8_gc_scenario(5, 5, vec![0, 3], "f8_09");
}

#[test]
fn test_f8_scenario_11() {
    run_f8_gc_scenario(7, 2, vec![0], "f8_11");
}

#[test]
fn test_f8_scenario_12() {
    run_f8_gc_scenario(8, 2, vec![0, 1], "f8_12");
}

#[test]
fn test_f8_scenario_13() {
    run_f8_gc_scenario(9, 3, vec![1, 2], "f8_13");
}

#[test]
fn test_f8_scenario_14() {
    run_f8_gc_scenario(10, 4, vec![0, 2, 3], "f8_14");
}

#[test]
fn test_f8_scenario_15() {
    run_f8_gc_scenario(11, 2, vec![0, 1, 4], "f8_15");
}

#[test]
fn test_f8_scenario_16() {
    run_f8_gc_scenario(7, 5, vec![], "f8_16");
}

#[test]
fn test_f8_scenario_17() {
    run_f8_gc_scenario(8, 5, vec![0], "f8_17");
}

#[test]
fn test_f8_scenario_18() {
    run_f8_gc_scenario(9, 5, vec![1, 2], "f8_18");
}

#[test]
fn test_f8_scenario_19() {
    run_f8_gc_scenario(10, 5, vec![0, 3], "f8_19");
}

#[test]
fn test_f8_scenario_20() {
    run_f8_gc_scenario(11, 5, vec![0, 1, 2, 3], "f8_20");
}

#[test]
fn test_f8_scenario_21() {
    run_f8_gc_scenario(12, 2, vec![0], "f8_21");
}

#[test]
fn test_f8_scenario_22() {
    run_f8_gc_scenario(13, 2, vec![0, 1], "f8_22");
}

#[test]
fn test_f8_scenario_23() {
    run_f8_gc_scenario(14, 3, vec![1, 2], "f8_23");
}

#[test]
fn test_f8_scenario_24() {
    run_f8_gc_scenario(15, 4, vec![0, 2, 3], "f8_24");
}

#[test]
fn test_f8_scenario_26() {
    run_f8_gc_scenario(12, 5, vec![], "f8_26");
}

#[test]
fn test_f8_scenario_27() {
    run_f8_gc_scenario(13, 5, vec![0], "f8_27");
}

#[test]
fn test_f8_scenario_28() {
    run_f8_gc_scenario(14, 5, vec![1, 2], "f8_28");
}

#[test]
fn test_f8_scenario_29() {
    run_f8_gc_scenario(15, 5, vec![0, 3], "f8_29");
}

#[test]
fn test_f8_scenario_30() {
    run_f8_gc_scenario(16, 5, vec![0, 1, 2, 3], "f8_30");
}

#[test]
fn test_f8_scenario_31() {
    run_f8_gc_scenario(17, 2, vec![0], "f8_31");
}

#[test]
fn test_f8_scenario_32() {
    run_f8_gc_scenario(18, 2, vec![0, 1], "f8_32");
}

#[test]
fn test_f8_scenario_33() {
    run_f8_gc_scenario(19, 3, vec![1, 2], "f8_33");
}

#[test]
fn test_f8_scenario_34() {
    run_f8_gc_scenario(20, 4, vec![0, 2, 3], "f8_34");
}

#[test]
fn test_f8_scenario_35() {
    run_f8_gc_scenario(21, 2, vec![0, 1, 4], "f8_35");
}

#[test]
fn test_f8_scenario_36() {
    run_f8_gc_scenario(17, 5, vec![], "f8_36");
}

#[test]
fn test_f8_scenario_37() {
    run_f8_gc_scenario(18, 5, vec![0], "f8_37");
}

#[test]
fn test_f8_scenario_38() {
    run_f8_gc_scenario(19, 5, vec![1, 2], "f8_38");
}

#[test]
fn test_f8_scenario_39() {
    run_f8_gc_scenario(20, 5, vec![0, 3], "f8_39");
}

#[test]
fn test_f8_scenario_40() {
    run_f8_gc_scenario(21, 5, vec![0, 1, 2, 3], "f8_40");
}

#[test]
fn test_f8_scenario_41() {
    run_f8_gc_scenario(22, 2, vec![0], "f8_41");
}

#[test]
fn test_f8_scenario_42() {
    run_f8_gc_scenario(23, 2, vec![0, 1], "f8_42");
}

#[test]
fn test_f8_scenario_43() {
    run_f8_gc_scenario(24, 3, vec![1, 2], "f8_43");
}

#[test]
fn test_f8_scenario_44() {
    run_f8_gc_scenario(25, 4, vec![0, 2, 3], "f8_44");
}

#[test]
fn test_f8_scenario_45() {
    run_f8_gc_scenario(26, 2, vec![0, 1, 4], "f8_45");
}

#[test]
fn test_f8_scenario_46() {
    run_f8_gc_scenario(22, 5, vec![], "f8_46");
}

#[test]
fn test_f8_scenario_47() {
    run_f8_gc_scenario(23, 5, vec![0], "f8_47");
}

#[test]
fn test_f8_scenario_48() {
    run_f8_gc_scenario(24, 5, vec![1, 2], "f8_48");
}

#[test]
fn test_f8_scenario_49() {
    run_f8_gc_scenario(25, 5, vec![0, 3], "f8_49");
}
