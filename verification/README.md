# arenaos

The decisions of a small x86-64 kernel and of its UEFI boot stage, as a Verus
library. Each function works on plain state that it is handed, says in its
contract what it returns and changes, and is proved to do so. The machine
itself (ports, control registers, stacks, the firmware) is driven by `app/`.

## What is where

| | |
|---|---|
| boot stage | `boot`, `uefi`, `bootinfo`, `memory_type`, `handoff`, `pit`, `timekeeping`, `serial`, `cpu`, `idt`, `tss`, `gdt`, `faults`, `m1`, `m2` |
| memory | `frames`, `heap`, `paging`, `needs`, `views`, `pe`, `accounts` |
| processes | `kernel`, `proc`, `cap`, `elf`, `window`, `rest` |
| threads | `ring`, `sched`, `preempt`, `context` |
| messages | `ipc`, `relay`, `console`, `syscall`, `status` |
| devices | `intc`, `pci`, `ports` |
| entry and suites | `entry`, `halt`, `log`, `suite`, `verdicts`, `m3`, `m4`, `m5`, `drills`, `demos`, `pairs`, `solo`, `payloads`, `listing` |
| arithmetic | `bits`, `bytes` |

Physical memory is a vector of words with a ghost record of which frames are
page tables and where they hang (`paging::PhysMem`). An address space is the
map from page numbers to leaf entries that walking its tables gives
(`paging::leaf`, `views::view`); mapping, unmapping, building the kernel's view
and tearing a process down are stated over it. `needs` counts the tables that a
row of mappings adds, so that it is stated exactly for how many frames each of
these succeeds. `accounts` ties the frames of a
process to the pool they came from, so that what a process took is exactly what
its end gives back; `rest` says that everything else (other address spaces, the
contents of other frames) stays as it was meanwhile.

Where a step has to wait, switch stacks or touch a device, the library gives
the decision (a plan, an action, a verdict over what was seen) and `app/`
carries it out.

Public proof functions whose names begin with `law_` state what holds across
calls: every reply reaches its caller, rights only shrink, no page is both
writable and executable, threads take turns in order, a destroyed process
leaves no frame behind.
