use rt_analysis::task::{Task, Tasklist};

fn taskset(tasks: &[Task]) -> Tasklist {
    let mut set = Tasklist::new();
    for t in tasks {
        set.push(*t);
    }
    set
}

#[test]
fn test1() {
    let task1 = Task { wcet: 5, deadline: 10, period: 15 };
    let task2 = Task { wcet: 7, deadline: 12, period: 14 };
    let taskset = taskset(&[task1, task2]);

    println!("h(100): {}", taskset.pdf(100).unwrap());
    println!("Dmax(100): {}", taskset.dmax(100));
    println!("QpaCondition(100): {}", taskset.qpa_condition(100));
    println!("QpaCondition(200): {}", taskset.qpa_condition(200));
    println!("Qpa(100): {}", taskset.qpa(100));
    println!("Qpa(12): {}", taskset.qpa(12));

    let util = task1.wcet / task1.period;
    println!("Utilization of task1: {}", util);

    let total_wcet = taskset.total_wcet().unwrap();
    println!("Total wcet: {}", total_wcet);

    println!("Dmin: {}", taskset.dmin());

    let my_lb = taskset.lb(0, total_wcet).unwrap();
    assert_eq!(my_lb, 12);
    println!("Lb: {}", my_lb);

    let dmax_of_12 = taskset.dmax(12);
    assert_eq!(dmax_of_12, 10);
    println!("Dmax(Lb=12): {}", dmax_of_12);

    let pdf_of_10 = taskset.pdf(10).unwrap();
    assert_eq!(pdf_of_10, 5);
    println!("h(t=10): {}", pdf_of_10);

    let my_qpa = taskset.qpa(my_lb);
    assert!(my_qpa);
    println!("Qpa: {}", my_qpa);
}

#[test]
fn test2() {
    let task1 = Task { wcet: 6000, deadline: 18000, period: 31000 };
    let task2 = Task { wcet: 2000, deadline: 9000, period: 9800 };
    let task3 = Task { wcet: 1000, deadline: 12000, period: 17000 };
    let task4 = Task { wcet: 90, deadline: 3000, period: 4200 };
    let task5 = Task { wcet: 8, deadline: 10, period: 96 };
    let task6 = Task { wcet: 2, deadline: 16, period: 12 };
    let task7 = Task { wcet: 10, deadline: 19, period: 280 };
    let task8 = Task { wcet: 26, deadline: 160, period: 660 };
    let taskset = taskset(&[task1, task2, task3, task4, task5, task6, task7, task8]);

    let total_wcet = taskset.total_wcet().unwrap();
    println!("Total wcet: {}", total_wcet);

    let my_lb = taskset.lb(0, total_wcet).unwrap();
    assert_eq!(my_lb, 16984);
    println!("Lb: {}", my_lb);

    let dmax_16984 = taskset.dmax(my_lb);
    println!("Dmax(16984): {}", dmax_16984);

    // La* is 15404
    let dmax_15404 = taskset.dmax(15404);
    assert_eq!(dmax_15404, 15400);
    println!("Dmax(15404): {}", dmax_15404);

    let qpa_using_lastar = taskset.qpa(dmax_15404);
    println!("Qpa(La*): {}", qpa_using_lastar);

    let qpa_using_lb = taskset.qpa(dmax_16984);
    println!("Qpa(Lb): {}", qpa_using_lb);

    let pdf_15400 = taskset.pdf(dmax_15404).unwrap();
    println!("Pdf<15400>: {}", pdf_15400);
}
